//! Writing TRE archives: a streaming builder that accepts named entries and
//! their bytes, and at the end lays out header, data region, record table,
//! name block and MD5 trailer into one byte vector.

use vstd::prelude::*;
use vstd::string::StringSliceAdditionalSpecFns;

use crate::compression::{spec_load_block, spec_store_block, store_block, CompressionMethod};
use crate::digest::{crc32_bzip2, crc32_bzip2_of, md5_digest, md5_of};
use crate::error::Error;
use crate::read::{
    lemma_find_nul_at, spec_archive_view, spec_entry_data, spec_entry_data_at, spec_entry_stored,
    spec_file_view, spec_parse_archive, spec_parse_names, spec_parse_records, spec_region,
    ArchiveModel, TreArchive,
};
use crate::types::{lemma_header_roundtrip, lemma_record_roundtrip, push_bytes, TreHeader, TreRecord};

verus! {

/// Options for how a TRE file should be written.
#[derive(Debug, Clone, Copy, PartialEq, Eq, Structural)]
pub struct TreWriterOptions {
    /// The compression method for the record metadata block.
    pub record_compression: CompressionMethod,
    /// The compression method for the name block.
    pub name_compression: CompressionMethod,
}

impl TreWriterOptions {
    /// Options with the two block methods given explicitly.
    pub fn new(record_compression: CompressionMethod, name_compression: CompressionMethod) -> (r:
        TreWriterOptions)
        ensures
            r == (TreWriterOptions { record_compression, name_compression }),
    {
        TreWriterOptions { record_compression, name_compression }
    }
}

impl Default for TreWriterOptions {
    /// Both metadata blocks zlib-compressed, as for shipped archives.
    fn default() -> (r: TreWriterOptions)
        ensures
            r == (TreWriterOptions {
                record_compression: CompressionMethod::Zlib,
                name_compression: CompressionMethod::Zlib,
            }),
    {
        TreWriterOptions {
            record_compression: CompressionMethod::Zlib,
            name_compression: CompressionMethod::Zlib,
        }
    }
}

/// `s` holds no NUL byte.
pub open spec fn spec_no_nul(s: Seq<u8>) -> bool {
    forall|j: int| 0 <= j < s.len() ==> s[j] != 0
}

/// Whether `s` holds a NUL byte.
pub(crate) fn contains_nul(s: &[u8]) -> (r: bool)
    ensures
        r == !spec_no_nul(s@),
{
    let n = s.len();
    let mut i: usize = 0;
    while i < n
        invariant
            i <= n,
            n == s@.len(),
            forall|j: int| 0 <= j < i ==> s@[j] != 0,
        decreases n - i,
    {
        if s[i] == 0 {
            return true;
        }
        i = i + 1;
    }
    false
}

/// Spec-level record of one entry the writer has finished: its raw name,
/// its logical payload, the method it was stored with, and the stored bytes
/// placed in the data region.
#[verifier::ext_equal]
pub struct WrittenEntry {
    pub name: Seq<u8>,
    pub data: Seq<u8>,
    pub method: CompressionMethod,
    pub stored: Seq<u8>,
}

/// The data region: the stored bytes of the entries, back to back.
pub open spec fn spec_stored_concat(entries: Seq<WrittenEntry>) -> Seq<u8>
    decreases entries.len(),
{
    if entries.len() == 0 {
        Seq::empty()
    } else {
        entries[0].stored + spec_stored_concat(entries.skip(1))
    }
}

/// The uncompressed name block: each name followed by a NUL, in order.
pub open spec fn spec_names_concat(entries: Seq<WrittenEntry>) -> Seq<u8>
    decreases entries.len(),
{
    if entries.len() == 0 {
        Seq::empty()
    } else {
        entries[0].name + seq![0u8] + spec_names_concat(entries.skip(1))
    }
}

/// The hash trailer: the MD5 digest of each entry's stored bytes, in order.
pub open spec fn spec_hashes_concat(entries: Seq<WrittenEntry>) -> Seq<u8>
    decreases entries.len(),
{
    if entries.len() == 0 {
        Seq::empty()
    } else {
        md5_of(entries[0].stored) + spec_hashes_concat(entries.skip(1))
    }
}

/// Appending an entry appends its stored bytes to the data region.
pub proof fn lemma_stored_concat_push(entries: Seq<WrittenEntry>, e: WrittenEntry)
    ensures
        spec_stored_concat(entries.push(e)) =~= spec_stored_concat(entries) + e.stored,
    decreases entries.len(),
{
    let p = entries.push(e);
    assert(p.len() == entries.len() + 1);
    if entries.len() == 0 {
        assert(p[0] == e);
        assert(p.skip(1) =~= entries);
        assert(spec_stored_concat(p) == p[0].stored + spec_stored_concat(p.skip(1)));
        assert(spec_stored_concat(p) =~= spec_stored_concat(entries) + e.stored);
    } else {
        assert(p[0] == entries[0]);
        assert(p.skip(1) =~= entries.skip(1).push(e));
        lemma_stored_concat_push(entries.skip(1), e);
        assert(spec_stored_concat(p) == p[0].stored + spec_stored_concat(p.skip(1)));
        assert(spec_stored_concat(entries) == entries[0].stored + spec_stored_concat(entries.skip(1)));
        assert(spec_stored_concat(p) =~= spec_stored_concat(entries) + e.stored);
    }
}

/// Appending an entry appends its name and a NUL to the name block.
pub proof fn lemma_names_concat_push(entries: Seq<WrittenEntry>, e: WrittenEntry)
    ensures
        spec_names_concat(entries.push(e)) =~= spec_names_concat(entries) + e.name + seq![0u8],
    decreases entries.len(),
{
    let p = entries.push(e);
    if entries.len() == 0 {
        assert(p[0] == e);
        assert(p.skip(1) =~= entries);
        assert(spec_names_concat(p) == p[0].name + seq![0u8] + spec_names_concat(p.skip(1)));
        assert(spec_names_concat(p) =~= spec_names_concat(entries) + e.name + seq![0u8]);
    } else {
        assert(p[0] == entries[0]);
        assert(p.skip(1) =~= entries.skip(1).push(e));
        lemma_names_concat_push(entries.skip(1), e);
        assert(spec_names_concat(p) == p[0].name + seq![0u8] + spec_names_concat(p.skip(1)));
        assert(spec_names_concat(entries) == entries[0].name + seq![0u8] + spec_names_concat(entries.skip(1)));
        assert(spec_names_concat(p) =~= spec_names_concat(entries) + e.name + seq![0u8]);
    }
}

/// Appending an entry appends its digest to the hash trailer.
pub proof fn lemma_hashes_concat_push(entries: Seq<WrittenEntry>, e: WrittenEntry)
    ensures
        spec_hashes_concat(entries.push(e)) =~= spec_hashes_concat(entries) + md5_of(e.stored),
    decreases entries.len(),
{
    let p = entries.push(e);
    if entries.len() == 0 {
        assert(p[0] == e);
        assert(p.skip(1) =~= entries);
        assert(spec_hashes_concat(p) == md5_of(p[0].stored) + spec_hashes_concat(p.skip(1)));
        assert(spec_hashes_concat(p) =~= spec_hashes_concat(entries) + md5_of(e.stored));
    } else {
        assert(p[0] == entries[0]);
        assert(p.skip(1) =~= entries.skip(1).push(e));
        lemma_hashes_concat_push(entries.skip(1), e);
        assert(spec_hashes_concat(p) == md5_of(p[0].stored) + spec_hashes_concat(p.skip(1)));
        assert(spec_hashes_concat(entries) == md5_of(entries[0].stored) + spec_hashes_concat(entries.skip(1)));
        assert(spec_hashes_concat(p) =~= spec_hashes_concat(entries) + md5_of(e.stored));
    }
}

/// One record is consistent with the entry it describes and with the layout
/// of all entries before it.
pub open spec fn spec_record_matches(
    r: TreRecord,
    entries: Seq<WrittenEntry>,
    i: int,
) -> bool {
    let e = entries[i];
    &&& r.data_compression == e.method
    &&& e.stored == spec_store_block(e.data, e.method)
    &&& spec_load_block(e.stored, r.data_compression) == Some(e.data)
    &&& r.data_compressed == e.stored.len()
    &&& r.data_uncompressed == e.data.len()
    &&& r.data_offset == 36 + spec_stored_concat(entries.take(i)).len()
    &&& r.checksum == crc32_bzip2_of(e.name)
    &&& r.name_offset == spec_names_concat(entries.take(i)).len()
    &&& spec_no_nul(e.name)
    &&& md5_of(e.stored).len() == 16
}

/// The record table is consistent with the finished entries.
pub open spec fn spec_records_match(records: Seq<TreRecord>, entries: Seq<WrittenEntry>) -> bool {
    &&& records.len() == entries.len()
    &&& forall|i: int|
        0 <= i < entries.len() ==> #[trigger] spec_record_matches(records[i], entries, i)
}

/// One entry's lengths fit the 32-bit on-disk fields: its payload and its
/// stored form are each at most `u32::MAX` bytes.
pub open spec fn spec_entry_fits(e: (Seq<u8>, Seq<u8>, CompressionMethod)) -> bool {
    &&& e.1.len() <= 0xffff_ffff
    &&& spec_store_block(e.1, e.2).len() <= 0xffff_ffff
}

/// The data region occupied by the first `n` entries: the sum of their
/// stored sizes.
pub open spec fn spec_stored_size(
    entries: Seq<(Seq<u8>, Seq<u8>, CompressionMethod)>,
    n: int,
) -> int
    decreases n,
{
    if n <= 0 {
        0
    } else {
        spec_stored_size(entries, n - 1) + spec_store_block(entries[n - 1].1, entries[n - 1].2).len()
    }
}

/// The uncompressed name block occupied by the first `n` entries: each name
/// plus its NUL terminator.
pub open spec fn spec_names_size(
    entries: Seq<(Seq<u8>, Seq<u8>, CompressionMethod)>,
    n: int,
) -> int
    decreases n,
{
    if n <= 0 {
        0
    } else {
        spec_names_size(entries, n - 1) + entries[n - 1].0.len() + 1
    }
}

/// The serialized record table: the 24-byte encodings, back to back.
pub open spec fn spec_records_bytes(records: Seq<TreRecord>) -> Seq<u8>
    decreases records.len(),
{
    if records.len() == 0 {
        Seq::empty()
    } else {
        records[0].spec_encode() + spec_records_bytes(records.skip(1))
    }
}

/// The uncompressed name block of the entries: each name followed by a NUL.
pub open spec fn spec_names_bytes(entries: Seq<(Seq<u8>, Seq<u8>, CompressionMethod)>) -> Seq<u8>
    decreases entries.len(),
{
    if entries.len() == 0 {
        Seq::empty()
    } else {
        entries[0].0 + seq![0u8] + spec_names_bytes(entries.skip(1))
    }
}

/// The record the writer lays down for entry `i`: checksum of the name,
/// payload and stored sizes, prefix-sum offsets, and the requested method.
pub open spec fn spec_record_of(
    entries: Seq<(Seq<u8>, Seq<u8>, CompressionMethod)>,
    i: int,
) -> TreRecord {
    TreRecord {
        checksum: crc32_bzip2_of(entries[i].0),
        data_uncompressed: entries[i].1.len() as u32,
        data_offset: (36 + spec_stored_size(entries, i)) as u32,
        data_compression: entries[i].2,
        data_compressed: spec_store_block(entries[i].1, entries[i].2).len() as u32,
        name_offset: spec_names_size(entries, i) as u32,
    }
}

/// Every length the finished archive stores in a 32-bit field fits: the
/// entry count, each entry's sizes, the data region, the name block, and
/// the two stored metadata blocks.
pub open spec fn spec_writer_fits(
    entries: Seq<(Seq<u8>, Seq<u8>, CompressionMethod)>,
    options: TreWriterOptions,
) -> bool {
    &&& entries.len() <= 0xffff_ffff
    &&& forall|i: int| 0 <= i < entries.len() ==> spec_entry_fits(#[trigger] entries[i])
    &&& 36 + spec_stored_size(entries, entries.len() as int) <= 0xffff_ffff
    &&& spec_names_size(entries, entries.len() as int) <= 0xffff_ffff
    &&& spec_store_block(
        spec_records_bytes(Seq::new(entries.len(), |i: int| spec_record_of(entries, i))),
        options.record_compression,
    ).len() <= 0xffff_ffff
    &&& spec_store_block(spec_names_bytes(entries), options.name_compression).len()
        <= 0xffff_ffff
}

/// Appending a record appends its encoding to the serialized table.
proof fn lemma_records_bytes_push(records: Seq<TreRecord>, r: TreRecord)
    ensures
        spec_records_bytes(records.push(r)) =~= spec_records_bytes(records) + r.spec_encode(),
    decreases records.len(),
{
    let p = records.push(r);
    if records.len() == 0 {
        assert(p[0] == r);
        assert(p.skip(1) =~= records);
        assert(spec_records_bytes(p) == p[0].spec_encode() + spec_records_bytes(p.skip(1)));
        assert(spec_records_bytes(p) =~= spec_records_bytes(records) + r.spec_encode());
    } else {
        assert(p[0] == records[0]);
        assert(p.skip(1) =~= records.skip(1).push(r));
        lemma_records_bytes_push(records.skip(1), r);
        assert(spec_records_bytes(p) == p[0].spec_encode() + spec_records_bytes(p.skip(1)));
        assert(spec_records_bytes(records) == records[0].spec_encode() + spec_records_bytes(
            records.skip(1),
        ));
        assert(spec_records_bytes(p) =~= spec_records_bytes(records) + r.spec_encode());
    }
}

/// The data region of the first `n` entries is as long as their stored
/// sizes say.
proof fn lemma_stored_size_of_concat(
    entries: Seq<WrittenEntry>,
    v: Seq<(Seq<u8>, Seq<u8>, CompressionMethod)>,
    n: int,
)
    requires
        v.len() == entries.len(),
        forall|j: int|
            0 <= j < entries.len() ==> #[trigger] v[j] == (
                entries[j].name,
                entries[j].data,
                entries[j].method,
            ),
        forall|j: int|
            0 <= j < entries.len() ==> (#[trigger] entries[j]).stored == spec_store_block(
                entries[j].data,
                entries[j].method,
            ),
        0 <= n <= entries.len(),
    ensures
        spec_stored_concat(entries.take(n)).len() == spec_stored_size(v, n),
    decreases n,
{
    if n > 0 {
        lemma_stored_size_of_concat(entries, v, n - 1);
        assert(entries.take(n) =~= entries.take(n - 1).push(entries[n - 1]));
        lemma_stored_concat_push(entries.take(n - 1), entries[n - 1]);
        assert(entries[n - 1].stored == spec_store_block(v[n - 1].1, v[n - 1].2));
    }
}

/// The uncompressed name block of the first `n` entries is as long as
/// their names plus one NUL each.
proof fn lemma_names_size_of_concat(
    entries: Seq<WrittenEntry>,
    v: Seq<(Seq<u8>, Seq<u8>, CompressionMethod)>,
    n: int,
)
    requires
        v.len() == entries.len(),
        forall|j: int|
            0 <= j < entries.len() ==> #[trigger] v[j] == (
                entries[j].name,
                entries[j].data,
                entries[j].method,
            ),
        0 <= n <= entries.len(),
    ensures
        spec_names_concat(entries.take(n)).len() == spec_names_size(v, n),
    decreases n,
{
    if n > 0 {
        lemma_names_size_of_concat(entries, v, n - 1);
        assert(entries.take(n) =~= entries.take(n - 1).push(entries[n - 1]));
        lemma_names_concat_push(entries.take(n - 1), entries[n - 1]);
        assert(entries[n - 1].name == v[n - 1].0);
    }
}

/// The name block of the entries equals the name block of their views.
proof fn lemma_names_bytes_of_concat(
    entries: Seq<WrittenEntry>,
    v: Seq<(Seq<u8>, Seq<u8>, CompressionMethod)>,
)
    requires
        v.len() == entries.len(),
        forall|j: int|
            0 <= j < entries.len() ==> #[trigger] v[j] == (
                entries[j].name,
                entries[j].data,
                entries[j].method,
            ),
    ensures
        spec_names_concat(entries) == spec_names_bytes(v),
    decreases entries.len(),
{
    if entries.len() > 0 {
        let te = entries.skip(1);
        let tv = v.skip(1);
        assert(forall|j: int|
            0 <= j < te.len() ==> #[trigger] tv[j] == v[j + 1] && te[j] == entries[j + 1]);
        lemma_names_bytes_of_concat(te, tv);
        assert(v[0].0 == entries[0].name);
        assert(spec_names_concat(entries) =~= spec_names_bytes(v));
    }
}


/// The entry the writer currently accepts bytes for.
struct CurrentEntry {
    compression: CompressionMethod,
    buf: Vec<u8>,
    checksum: u32,
    data_offset: u32,
    name_offset: u32,
    name: Ghost<Seq<u8>>,
}

/// TRE archive writer.
///
/// Entries are opened with [`TreWriter::start_file`], filled with
/// [`TreWriter::write`], and the complete archive is produced by
/// [`TreWriter::finish`]. All blocks are buffered in memory until then.
pub struct TreWriter {
    data_block: Vec<u8>,
    records: Vec<TreRecord>,
    name_block: Vec<u8>,
    hash_block: Vec<u8>,
    current: Option<CurrentEntry>,
    options: TreWriterOptions,
    entries: Ghost<Seq<WrittenEntry>>,
}

impl View for TreWriter {
    type V = Seq<(Seq<u8>, Seq<u8>, CompressionMethod)>;

    /// The (name bytes, payload bytes, method) triples accepted so far, the
    /// still-open entry included.
    closed spec fn view(&self) -> Seq<(Seq<u8>, Seq<u8>, CompressionMethod)> {
        let fin = Seq::new(
            self.entries@.len(),
            |i: int| (self.entries@[i].name, self.entries@[i].data, self.entries@[i].method),
        );
        match self.current {
            Some(cur) => fin.push((cur.name@, cur.buf@, cur.compression)),
            None => fin,
        }
    }
}

impl TreWriter {
    /// The options the writer was created with.
    pub closed spec fn spec_options(self) -> TreWriterOptions {
        self.options
    }

    /// Whether an entry is currently open for writing.
    pub closed spec fn spec_is_writing(self) -> bool {
        self.current is Some
    }

    /// The writer's internal blocks are consistent with the entries
    /// accepted so far.
    pub closed spec fn wf(self) -> bool {
        &&& spec_records_match(self.records@, self.entries@)
        &&& self.data_block@ == spec_stored_concat(self.entries@)
        &&& self.hash_block@ == spec_hashes_concat(self.entries@)
        &&& match self.current {
            None => self.name_block@ == spec_names_concat(self.entries@),
            Some(cur) => {
                &&& self.name_block@ == spec_names_concat(self.entries@) + cur.name@ + seq![0u8]
                &&& cur.checksum == crc32_bzip2_of(cur.name@)
                &&& spec_no_nul(cur.name@)
                &&& cur.data_offset == 36 + self.data_block@.len()
                &&& cur.name_offset == spec_names_concat(self.entries@).len()
            },
        }
    }

    /// Initializes a writer for an archive with the given block options.
    pub fn new(options: TreWriterOptions) -> (r: TreWriter)
        ensures
            r.wf(),
            r@ == Seq::<(Seq<u8>, Seq<u8>, CompressionMethod)>::empty(),
            r.spec_options() == options,
            !r.spec_is_writing(),
    {
        let w = TreWriter {
            data_block: Vec::new(),
            records: Vec::new(),
            name_block: Vec::new(),
            hash_block: Vec::new(),
            current: None,
            options,
            entries: Ghost(Seq::empty()),
        };
        proof {
            assert(w@ =~= Seq::<(Seq<u8>, Seq<u8>, CompressionMethod)>::empty());
        }
        w
    }

    /// Whether an entry is currently open for writing.
    pub fn is_writing_file(&self) -> (r: bool)
        ensures
            r == self.spec_is_writing(),
    {
        self.current.is_some()
    }

    /// Appends bytes to the open entry; fails when no entry has been
    /// started.
    pub fn write(&mut self, buf: &[u8]) -> (r: Result<usize, Error>)
        requires
            old(self).wf(),
        ensures
            final(self).wf(),
            final(self).spec_options() == old(self).spec_options(),
            final(self).spec_is_writing() == old(self).spec_is_writing(),
            match r {
                Ok(n) => {
                    &&& n == buf@.len()
                    &&& old(self).spec_is_writing()
                    &&& final(self)@ == old(self)@.update(
                        old(self)@.len() - 1,
                        (old(self)@.last().0, old(self)@.last().1 + buf@, old(self)@.last().2),
                    )
                },
                Err(e) => {
                    &&& (e matches Error::IOError(_))
                    &&& !old(self).spec_is_writing()
                    &&& final(self)@ == old(self)@
                },
            },
    {
        let mut cur = match self.current.take() {
            Some(c) => c,
            None => {
                return Err(Error::IOError("No file has been started".to_owned()));
            },
        };
        push_bytes(&mut cur.buf, buf);
        self.current = Some(cur);
        proof {
            assert(self@ =~= old(self)@.update(
                old(self)@.len() - 1,
                (old(self)@.last().0, old(self)@.last().1 + buf@, old(self)@.last().2),
            ));
        }
        Ok(buf.len())
    }

    /// Writes all of `buf` to the open entry; fails when no entry has been
    /// started.
    pub fn write_all(&mut self, buf: &[u8]) -> (r: Result<(), Error>)
        requires
            old(self).wf(),
        ensures
            final(self).wf(),
            final(self).spec_options() == old(self).spec_options(),
            final(self).spec_is_writing() == old(self).spec_is_writing(),
            match r {
                Ok(()) => {
                    &&& old(self).spec_is_writing()
                    &&& final(self)@ == old(self)@.update(
                        old(self)@.len() - 1,
                        (old(self)@.last().0, old(self)@.last().1 + buf@, old(self)@.last().2),
                    )
                },
                Err(e) => {
                    &&& (e matches Error::IOError(_))
                    &&& !old(self).spec_is_writing()
                    &&& final(self)@ == old(self)@
                },
            },
    {
        match self.write(buf) {
            Ok(_) => Ok(()),
            Err(e) => Err(e),
        }
    }

    /// Closes the open entry: compresses its bytes, records its metadata,
    /// and appends its stored bytes and MD5 digest. Fails only when a
    /// length no longer fits the 32-bit on-disk fields; the writer is then
    /// unchanged.
    pub fn finish_file(&mut self) -> (r: Result<(), Error>)
        requires
            old(self).wf(),
            old(self).spec_is_writing(),
        ensures
            final(self).wf(),
            final(self).spec_options() == old(self).spec_options(),
            final(self)@ == old(self)@,
            (r is Err) <==> !spec_entry_fits(old(self)@.last()),
            match r {
                Ok(()) => !final(self).spec_is_writing(),
                Err(e) => (e matches Error::CustomError(_)) && final(self).spec_is_writing()
                    && *final(self) == *old(self),
            },
    {
        let ghost cur0 = self.current.unwrap();
        proof {
            assert(self@.last() == (cur0.name@, cur0.buf@, cur0.compression));
        }
        let buf_len = match &self.current {
            Some(cur) => cur.buf.len(),
            None => 0,
        };
        if buf_len as u64 > 0xffff_ffff {
            return Err(Error::CustomError("entry larger than the format allows".to_owned()));
        }
        let (compression, checksum, data_offset, name_offset) = match &self.current {
            Some(cur) => (cur.compression, cur.checksum, cur.data_offset, cur.name_offset),
            None => (CompressionMethod::Raw, 0, 0, 0),
        };
        let stored = match &self.current {
            Some(cur) => store_block(cur.buf.as_slice(), compression),
            None => Vec::new(),
        };
        if stored.len() as u64 > 0xffff_ffff {
            return Err(
                Error::CustomError("compressed entry larger than the format allows".to_owned()),
            );
        }
        proof {
            assert(spec_entry_fits(old(self)@.last()));
        }
        let mut digest = md5_digest(stored.as_slice());
        let rec = TreRecord {
            checksum,
            data_uncompressed: buf_len as u32,
            data_offset,
            data_compression: compression,
            data_compressed: stored.len() as u32,
            name_offset,
        };
        let cur = self.current.take().unwrap();
        let ghost e = WrittenEntry {
            name: cur.name@,
            data: cur.buf@,
            method: cur.compression,
            stored: stored@,
        };
        let ghost entries0 = self.entries@;
        self.records.push(rec);
        push_bytes(&mut self.data_block, stored.as_slice());
        self.hash_block.append(&mut digest);
        proof {
            self.entries@ = entries0.push(e);
        }
        proof {
            lemma_stored_concat_push(entries0, e);
            lemma_names_concat_push(entries0, e);
            lemma_hashes_concat_push(entries0, e);
            assert(self.data_block@ =~= spec_stored_concat(self.entries@));
            assert(self.hash_block@ =~= spec_hashes_concat(self.entries@));
            assert(self.name_block@ =~= spec_names_concat(self.entries@));
            assert forall|i: int| 0 <= i < self.entries@.len() implies #[trigger] spec_record_matches(
                self.records@[i],
                self.entries@,
                i,
            ) by {
                assert(self.entries@.take(i) =~= entries0.take(i));
                if i < entries0.len() {
                    assert(spec_record_matches(self.records@[i], entries0, i));
                    assert(self.entries@[i] == entries0[i]);
                } else {
                    assert(self.entries@.take(i) =~= entries0);
                    assert(self.entries@[i] == e);
                }
            }
            assert(self@ =~= old(self)@);
        }
        Ok(())
    }

    /// Starts a new entry with the given name and per-entry compression;
    /// a still-open entry is finished first. Fails exactly when the name
    /// holds a NUL byte or a length no longer fits the 32-bit on-disk
    /// fields; the list of accepted entries is then unchanged.
    pub fn start_file(&mut self, name: &str, compression: CompressionMethod) -> (r: Result<
        (),
        Error,
    >)
        requires
            old(self).wf(),
        ensures
            final(self).wf(),
            final(self).spec_options() == old(self).spec_options(),
            match r {
                Ok(()) => {
                    &&& final(self)@ == old(self)@.push(
                        (name.spec_bytes(), Seq::<u8>::empty(), compression),
                    )
                    &&& final(self).spec_is_writing()
                },
                Err(e) => {
                    &&& (e matches Error::CustomError(_))
                    &&& final(self)@ == old(self)@
                },
            },
            (r is Err) <==> ({
                ||| !spec_no_nul(name.spec_bytes())
                ||| (old(self).spec_is_writing() && !spec_entry_fits(old(self)@.last()))
                ||| 36 + spec_stored_size(old(self)@, old(self)@.len() as int) > 0xffff_ffff
                ||| spec_names_size(old(self)@, old(self)@.len() as int) > 0xffff_ffff
            }),
    {
        let nb = name.as_bytes();
        if contains_nul(nb) {
            return Err(Error::CustomError("entry name holds a NUL byte".to_owned()));
        }
        if self.current.is_some() {
            match self.finish_file() {
                Ok(()) => (),
                Err(e) => {
                    return Err(e);
                },
            }
        }
        proof {
            let entries = self.entries@;
            let n = entries.len() as int;
            assert(self@.len() == n);
            assert(forall|j: int|
                0 <= j < n ==> #[trigger] self@[j] == (
                    entries[j].name,
                    entries[j].data,
                    entries[j].method,
                ));
            assert forall|j: int|
                0 <= j < n implies (#[trigger] entries[j]).stored == spec_store_block(
                entries[j].data,
                entries[j].method,
            ) by {
                assert(spec_record_matches(self.records@[j], entries, j));
            }
            assert(entries.take(n) =~= entries);
            lemma_stored_size_of_concat(entries, self@, n);
            lemma_names_size_of_concat(entries, self@, n);
            assert(self.data_block@.len() == spec_stored_size(self@, n));
            assert(self.name_block@.len() == spec_names_size(self@, n));
            assert(self@ == old(self)@);
        }
        let dlen = self.data_block.len();
        if (dlen as u64) > 0xffff_ffff - 36 {
            return Err(Error::CustomError("data region larger than the format allows".to_owned()));
        }
        let nlen = self.name_block.len();
        if (nlen as u64) > 0xffff_ffff {
            return Err(Error::CustomError("name block larger than the format allows".to_owned()));
        }
        let checksum = crc32_bzip2(nb);
        push_bytes(&mut self.name_block, nb);
        self.name_block.push(0);
        self.current = Some(
            CurrentEntry {
                compression,
                buf: Vec::new(),
                checksum,
                data_offset: 36 + dlen as u32,
                name_offset: nlen as u32,
                name: Ghost(nb@),
            },
        );
        proof {
            assert(self.name_block@ =~= spec_names_concat(self.entries@) + nb@ + seq![0u8]);
            assert(self@ =~= old(self)@.push((name.spec_bytes(), Seq::<u8>::empty(), compression)));
        }
        Ok(())
    }

    /// Finishes any open entry and lays out the complete archive: header,
    /// data region, record table, name block and MD5 trailer. Fails exactly
    /// when a length no longer fits the 32-bit on-disk fields.
    #[verifier::loop_isolation(false)]
    #[verifier::rlimit(100)]
    pub fn finish(self) -> (r: Result<Vec<u8>, Error>)
        requires
            self.wf(),
        ensures
            (r is Err) <==> !spec_writer_fits(self@, self.spec_options()),
            match r {
                Ok(out) => spec_written(out@, self@, self.spec_options()),
                Err(e) => (e matches Error::CustomError(_)),
            },
    {
        let mut w = self;
        if w.current.is_some() {
            match w.finish_file() {
                Ok(()) => (),
                Err(e) => {
                    proof {
                        assert(self@.last() == self@[self@.len() - 1]);
                        assert(!spec_writer_fits(self@, self.spec_options()));
                    }
                    return Err(e);
                },
            }
        }
        proof {
            assert(w@ == self@);
            let entries = w.entries@;
            let n = entries.len() as int;
            assert(w@.len() == n);
            assert(forall|j: int|
                0 <= j < n ==> #[trigger] w@[j] == (
                    entries[j].name,
                    entries[j].data,
                    entries[j].method,
                ));
            assert(w@ =~= Seq::new(
                entries.len(),
                |i: int| (entries[i].name, entries[i].data, entries[i].method),
            ));
            lemma_records_pinned(entries, w.records@, w@);
            assert forall|j: int|
                0 <= j < n implies (#[trigger] entries[j]).stored == spec_store_block(
                entries[j].data,
                entries[j].method,
            ) by {
                assert(spec_record_matches(w.records@[j], entries, j));
            }
            assert(entries.take(n) =~= entries);
            lemma_stored_size_of_concat(entries, w@, n);
            lemma_names_size_of_concat(entries, w@, n);
            lemma_names_bytes_of_concat(entries, w@);
        }
        let n_rec = w.records.len();
        if (n_rec as u64) > 0xffff_ffff {
            proof {
                assert(!spec_writer_fits(self@, self.spec_options()));
            }
            return Err(Error::CustomError("too many entries for the format".to_owned()));
        }
        let dlen = w.data_block.len();
        if (dlen as u64) > 0xffff_ffff - 36 {
            proof {
                assert(!spec_writer_fits(self@, self.spec_options()));
            }
            return Err(Error::CustomError("data region larger than the format allows".to_owned()));
        }
        let mut rec_plain: Vec<u8> = Vec::new();
        let mut j: usize = 0;
        proof {
            assert(w.records@.take(0) =~= Seq::<TreRecord>::empty());
            assert(rec_plain@ =~= spec_records_bytes(w.records@.take(0)));
        }
        while j < n_rec
            invariant
                j <= n_rec,
                rec_plain@.len() == 24 * j,
                rec_plain@ == spec_records_bytes(w.records@.take(j as int)),
                forall|i: int|
                    0 <= i < j ==> rec_plain@.subrange(24 * i, 24 * i + 24) == (
                    #[trigger] w.records@[i]).spec_encode(),
            decreases n_rec - j,
        {
            let ghost before = rec_plain@;
            let rec = w.records[j];
            rec.append_to(&mut rec_plain);
            proof {
                assert(rec.spec_encode().len() == 24);
                lemma_records_bytes_push(w.records@.take(j as int), rec);
                assert(w.records@.take(j as int + 1) =~= w.records@.take(j as int).push(rec));
                assert(rec_plain@ == spec_records_bytes(w.records@.take(j as int + 1)));
                assert forall|i: int|
                    0 <= i < j + 1 implies rec_plain@.subrange(24 * i, 24 * i + 24) == (
                #[trigger] w.records@[i]).spec_encode() by {
                    if i < j {
                        assert(rec_plain@.subrange(24 * i, 24 * i + 24) =~= before.subrange(
                            24 * i,
                            24 * i + 24,
                        ));
                    } else {
                        assert(rec_plain@.subrange(24 * i, 24 * i + 24) =~= rec.spec_encode());
                    }
                }
            }
            j = j + 1;
        }
        proof {
            assert(w.records@.take(n_rec as int) =~= w.records@);
            assert(rec_plain@ == spec_records_bytes(w.records@));
            assert(w.records@ =~= Seq::new(w@.len(), |i: int| spec_record_of(w@, i)));
        }
        let rec_stored = store_block(rec_plain.as_slice(), w.options.record_compression);
        if (rec_stored.len() as u64) > 0xffff_ffff {
            proof {
                assert(!spec_writer_fits(self@, self.spec_options()));
            }
            return Err(
                Error::CustomError("record block larger than the format allows".to_owned()),
            );
        }
        let nlen = w.name_block.len();
        if (nlen as u64) > 0xffff_ffff {
            proof {
                assert(!spec_writer_fits(self@, self.spec_options()));
            }
            return Err(Error::CustomError("name block larger than the format allows".to_owned()));
        }
        let name_stored = store_block(w.name_block.as_slice(), w.options.name_compression);
        if (name_stored.len() as u64) > 0xffff_ffff {
            proof {
                assert(!spec_writer_fits(self@, self.spec_options()));
            }
            return Err(Error::CustomError("name block larger than the format allows".to_owned()));
        }
        proof {
            assert(spec_writer_fits(self@, self.spec_options())) by {
                assert forall|i: int|
                    0 <= i < self@.len() implies spec_entry_fits(#[trigger] self@[i]) by {
                    assert(spec_record_matches(w.records@[i], w.entries@, i));
                }
            }
        }
        let header = TreHeader {
            records: n_rec as u32,
            record_start: 36 + dlen as u32,
            record_compression: w.options.record_compression,
            record_compressed: rec_stored.len() as u32,
            name_compression: w.options.name_compression,
            name_compressed: name_stored.len() as u32,
            name_uncompressed: nlen as u32,
        };
        let mut out = header.to_bytes();
        push_bytes(&mut out, w.data_block.as_slice());
        push_bytes(&mut out, rec_stored.as_slice());
        push_bytes(&mut out, name_stored.as_slice());
        push_bytes(&mut out, w.hash_block.as_slice());
        proof {
            assert(out@ =~= header.spec_encode() + w.data_block@ + rec_stored@ + name_stored@
                + w.hash_block@);
            lemma_finish_layout(
                out@,
                w.entries@,
                w.records@,
                header,
                w.data_block@,
                rec_plain@,
                rec_stored@,
                w.name_block@,
                name_stored@,
                w.hash_block@,
                self@,
                self.spec_options(),
            );
        }
        Ok(out)
    }
}

/// The sum of the on-disk payload sizes of `records`.
pub open spec fn spec_sum_compressed(records: Seq<TreRecord>) -> int
    decreases records.len(),
{
    if records.len() == 0 {
        0
    } else {
        records[0].data_compressed + spec_sum_compressed(records.skip(1))
    }
}

/// Where the hash trailer of an archive with header `h` starts.
pub open spec fn spec_trailer_start(h: TreHeader) -> int {
    h.record_start + h.record_compressed + h.name_compressed
}

/// The data region is as long as the payload sizes of matching records say.
proof fn lemma_stored_concat_sum(records: Seq<TreRecord>, entries: Seq<WrittenEntry>)
    requires
        records.len() == entries.len(),
        forall|i: int|
            0 <= i < entries.len() ==> (#[trigger] records[i]).data_compressed == entries[i].stored.len(),
    ensures
        spec_stored_concat(entries).len() == spec_sum_compressed(records),
    decreases entries.len(),
{
    if entries.len() > 0 {
        assert(forall|i: int|
            0 <= i < entries.skip(1).len() ==> (#[trigger] records.skip(1)[i]).data_compressed
                == entries.skip(1)[i].stored.len()) by {
            assert(forall|i: int|
                0 <= i < entries.skip(1).len() ==> records.skip(1)[i] == records[i + 1]
                    && entries.skip(1)[i] == entries[i + 1]);
        }
        lemma_stored_concat_sum(records.skip(1), entries.skip(1));
    }
}

/// The stored bytes of entry `i` stand at their prefix-sum offset inside
/// the data region.
proof fn lemma_stored_concat_slice(entries: Seq<WrittenEntry>, i: int)
    requires
        0 <= i < entries.len(),
    ensures
        spec_stored_concat(entries.take(i)).len() + entries[i].stored.len()
            <= spec_stored_concat(entries).len(),
        spec_stored_concat(entries).subrange(
            spec_stored_concat(entries.take(i)).len() as int,
            spec_stored_concat(entries.take(i)).len() + entries[i].stored.len() as int,
        ) =~= entries[i].stored,
    decreases i,
{
    if i == 0 {
        assert(entries.take(0) =~= Seq::<WrittenEntry>::empty());
        assert(spec_stored_concat(entries) == entries[0].stored + spec_stored_concat(
            entries.skip(1),
        ));
    } else {
        let t = entries.skip(1);
        lemma_stored_concat_slice(t, i - 1);
        assert(entries.take(i)[0] == entries[0]);
        assert(entries.take(i).skip(1) =~= t.take(i - 1));
        assert(spec_stored_concat(entries.take(i)) == entries[0].stored + spec_stored_concat(
            t.take(i - 1),
        ));
        assert(spec_stored_concat(entries) == entries[0].stored + spec_stored_concat(t));
        assert(t[i - 1] == entries[i]);
        let p = spec_stored_concat(t.take(i - 1)).len() as int;
        let l0 = entries[0].stored.len() as int;
        assert(spec_stored_concat(entries).subrange(l0 + p, l0 + p + entries[i].stored.len())
            =~= spec_stored_concat(t).subrange(p, p + entries[i].stored.len()));
    }
}

/// The hash trailer is sixteen bytes per entry.
proof fn lemma_hashes_len(entries: Seq<WrittenEntry>)
    requires
        forall|i: int| 0 <= i < entries.len() ==> md5_of((#[trigger] entries[i]).stored).len() == 16,
    ensures
        spec_hashes_concat(entries).len() == 16 * entries.len(),
    decreases entries.len(),
{
    if entries.len() > 0 {
        assert(forall|i: int|
            0 <= i < entries.skip(1).len() ==> entries.skip(1)[i] == entries[i + 1]);
        lemma_hashes_len(entries.skip(1));
    }
}

/// The digest of entry `i` stands sixteen-aligned inside the hash trailer.
proof fn lemma_hashes_slice(entries: Seq<WrittenEntry>, i: int)
    requires
        0 <= i < entries.len(),
        forall|j: int| 0 <= j < entries.len() ==> md5_of((#[trigger] entries[j]).stored).len() == 16,
    ensures
        spec_hashes_concat(entries).subrange(16 * i, 16 * i + 16) =~= md5_of(entries[i].stored),
    decreases i,
{
    lemma_hashes_len(entries);
    if i == 0 {
        assert(spec_hashes_concat(entries) == md5_of(entries[0].stored) + spec_hashes_concat(
            entries.skip(1),
        ));
    } else {
        let t = entries.skip(1);
        assert(forall|j: int| 0 <= j < t.len() ==> t[j] == entries[j + 1]);
        lemma_hashes_slice(t, i - 1);
        assert(spec_hashes_concat(entries) == md5_of(entries[0].stored) + spec_hashes_concat(t));
        assert(t[i - 1] == entries[i]);
        assert(spec_hashes_concat(entries).subrange(16 * i, 16 * i + 16)
            =~= spec_hashes_concat(t).subrange(16 * (i - 1), 16 * (i - 1) + 16));
    }
}

/// The name block a writer lays out parses back to exactly the entry names.
proof fn lemma_parse_names_of_concat(entries: Seq<WrittenEntry>)
    requires
        forall|i: int| 0 <= i < entries.len() ==> spec_no_nul((#[trigger] entries[i]).name),
    ensures
        spec_parse_names(spec_names_concat(entries), entries.len()) == Some(
            Seq::new(entries.len(), |i: int| entries[i].name),
        ),
    decreases entries.len(),
{
    if entries.len() == 0 {
        assert(Seq::new(0, |i: int| entries[i].name) =~= Seq::<Seq<u8>>::empty());
    } else {
        let e0 = entries[0];
        let t = entries.skip(1);
        let s = spec_names_concat(entries);
        assert(s == e0.name + seq![0u8] + spec_names_concat(t));
        let l0 = e0.name.len() as int;
        assert(s[l0] == 0);
        assert(forall|j: int| 0 <= j < l0 ==> s[j] == e0.name[j]);
        lemma_find_nul_at(s, l0);
        assert(s.take(l0) =~= e0.name);
        assert(s.skip(l0 + 1) =~= spec_names_concat(t));
        assert(forall|j: int| 0 <= j < t.len() ==> t[j] == entries[j + 1]);
        lemma_parse_names_of_concat(t);
        let rest = Seq::new(t.len(), |i: int| t[i].name);
        assert(spec_parse_names(s, entries.len()) == Some(seq![e0.name] + rest));
        assert(seq![e0.name] + rest =~= Seq::new(entries.len(), |i: int| entries[i].name));
    }
}

/// Each record the writer lays down is exactly the record the entries
/// determine: name checksum, sizes, prefix-sum offsets, and the requested
/// method.
proof fn lemma_records_pinned(
    entries: Seq<WrittenEntry>,
    recs: Seq<TreRecord>,
    v: Seq<(Seq<u8>, Seq<u8>, CompressionMethod)>,
)
    requires
        spec_records_match(recs, entries),
        v == Seq::new(entries.len(), |i: int| (entries[i].name, entries[i].data, entries[i].method)),
    ensures
        forall|i: int| 0 <= i < recs.len() ==> #[trigger] recs[i] == spec_record_of(v, i),
        forall|i: int| 0 <= i < recs.len() ==> spec_entry_fits(#[trigger] v[i]),
{
    assert(forall|j: int|
        0 <= j < entries.len() ==> #[trigger] v[j] == (
            entries[j].name,
            entries[j].data,
            entries[j].method,
        ));
    assert forall|j: int|
        0 <= j < entries.len() implies (#[trigger] entries[j]).stored == spec_store_block(
        entries[j].data,
        entries[j].method,
    ) by {
        assert(spec_record_matches(recs[j], entries, j));
    }
    assert forall|i: int| 0 <= i < recs.len() implies #[trigger] recs[i] == spec_record_of(
        v,
        i,
    ) by {
        assert(spec_record_matches(recs[i], entries, i));
        lemma_stored_size_of_concat(entries, v, i);
        lemma_names_size_of_concat(entries, v, i);
        let r = recs[i];
        let e = spec_record_of(v, i);
        assert(r.checksum == e.checksum);
        assert(r.data_uncompressed == e.data_uncompressed);
        assert(r.data_offset == e.data_offset);
        assert(r.data_compression == e.data_compression);
        assert(r.data_compressed == e.data_compressed);
        assert(r.name_offset == e.name_offset);
    }
    assert forall|i: int| 0 <= i < recs.len() implies spec_entry_fits(#[trigger] v[i]) by {
        assert(spec_record_matches(recs[i], entries, i));
        assert(v[i].1.len() == recs[i].data_uncompressed);
        assert(spec_store_block(v[i].1, v[i].2).len() == recs[i].data_compressed);
    }
}

/// A fully assembled archive parses back to exactly its own header,
/// records and names.
#[verifier::rlimit(100)]
proof fn lemma_finish_parses(
    out: Seq<u8>,
    entries: Seq<WrittenEntry>,
    recs: Seq<TreRecord>,
    header: TreHeader,
    data_block: Seq<u8>,
    rec_plain: Seq<u8>,
    rec_stored: Seq<u8>,
    name_block: Seq<u8>,
    name_stored: Seq<u8>,
    hash_block: Seq<u8>,
)
    requires
        spec_records_match(recs, entries),
        data_block == spec_stored_concat(entries),
        name_block == spec_names_concat(entries),
        hash_block == spec_hashes_concat(entries),
        out == header.spec_encode() + data_block + rec_stored + name_stored + hash_block,
        header.records == recs.len(),
        header.record_start == 36 + data_block.len(),
        header.record_compressed == rec_stored.len(),
        header.name_compressed == name_stored.len(),
        header.name_uncompressed == name_block.len(),
        rec_plain.len() == 24 * recs.len(),
        forall|i: int|
            0 <= i < recs.len() ==> rec_plain.subrange(24 * i, 24 * i + 24) == (
            #[trigger] recs[i]).spec_encode(),
        spec_load_block(rec_stored, header.record_compression) == Some(rec_plain),
        spec_load_block(name_stored, header.name_compression) == Some(name_block),
    ensures
        spec_parse_archive(out) == Some(
            ArchiveModel {
                header,
                records: recs,
                names: Seq::new(entries.len(), |i: int| entries[i].name),
            },
        ),
{
    let hb = header.spec_encode();
    let dl = data_block.len() as int;
    let rl = rec_stored.len() as int;
    let sl = name_stored.len() as int;
    let tl = hash_block.len() as int;
    let n = entries.len() as int;
    assert(out.len() == 36 + dl + rl + sl + tl);
    assert(forall|k: int| 0 <= k < rl ==> out[36 + dl + k] == rec_stored[k]);
    assert(forall|k: int| 0 <= k < sl ==> out[36 + dl + rl + k] == name_stored[k]);
    assert(out.subrange(0, 36) =~= hb);
    lemma_header_roundtrip(out, header);
    assert(header.record_start == 36 + dl);
    assert(spec_region(out, 36 + dl, rl) =~= rec_stored);
    assert forall|i: int|
        0 <= i < n implies TreRecord::spec_parse_at(rec_plain, 24 * i) == Some(
        recs[i],
    ) by {
        lemma_record_roundtrip(rec_plain, 24 * i, recs[i]);
    }
    assert(header.records as int == n);
    assert(rec_plain.len() >= 24 * (header.records as nat));
    assert forall|i: int|
        0 <= i < header.records as nat implies #[trigger] TreRecord::spec_parse_at(
        rec_plain,
        24 * i,
    ) is Some by {
        assert(TreRecord::spec_parse_at(rec_plain, 24 * i) == Some(recs[i]));
    }
    assert(spec_parse_records(rec_plain, header.records as nat) == Some(recs)) by {
        assert(Seq::new(
            header.records as nat,
            |i: int| TreRecord::spec_parse_at(rec_plain, 24 * i).unwrap(),
        ) =~= recs);
    }
    assert(spec_region(out, 36 + dl + rl, sl) =~= name_stored);
    assert(forall|i: int|
        0 <= i < n ==> spec_record_matches(#[trigger] recs[i], entries, i));
    assert forall|i: int| 0 <= i < n implies spec_no_nul((#[trigger] entries[i]).name) by {
        assert(spec_record_matches(recs[i], entries, i));
    }
    lemma_parse_names_of_concat(entries);
    let names = Seq::new(entries.len(), |i: int| entries[i].name);
    let m = ArchiveModel { header, records: recs, names };
    if header.records == 0 {
        assert(recs =~= Seq::<TreRecord>::empty());
        assert(names =~= Seq::<Seq<u8>>::empty());
        assert(spec_parse_archive(out) == Some(
            ArchiveModel {
                header,
                records: Seq::empty(),
                names: Seq::empty(),
            },
        ));
        assert(spec_parse_archive(out) == Some(m));
    } else {
        assert(spec_parse_archive(out) == Some(m));
    }
}

/// The payload of each entry stands at its record's offset inside `out` and
/// decompresses back to the entry's bytes.
#[verifier::rlimit(100)]
proof fn lemma_entry_payloads(
    out: Seq<u8>,
    entries: Seq<WrittenEntry>,
    recs: Seq<TreRecord>,
    data_block: Seq<u8>,
)
    requires
        spec_records_match(recs, entries),
        data_block == spec_stored_concat(entries),
        forall|k: int| 0 <= k < data_block.len() ==> out[36 + k] == data_block[k],
        36 + data_block.len() <= out.len(),
    ensures
        forall|i: int|
            0 <= i < entries.len() ==> spec_entry_stored(out, #[trigger] recs[i])
                == entries[i].stored,
        forall|i: int|
            0 <= i < entries.len() ==> spec_entry_data(out, #[trigger] recs[i]) == Some(
                entries[i].data,
            ),
{
    let dl = data_block.len() as int;
    assert forall|i: int|
        0 <= i < entries.len() implies spec_entry_stored(out, #[trigger] recs[i])
        == entries[i].stored && spec_entry_data(out, recs[i]) == Some(entries[i].data) by {
        assert(spec_record_matches(recs[i], entries, i));
        lemma_stored_concat_slice(entries, i);
        let p = spec_stored_concat(entries.take(i)).len() as int;
        let li = entries[i].stored.len() as int;
        assert(recs[i].data_offset == 36 + p);
        assert(recs[i].data_compressed == li);
        assert(p + li <= dl);
        assert(spec_region(out, 36 + p, li) =~= data_block.subrange(p, p + li));
        assert(data_block.subrange(p, p + li) =~= entries[i].stored);
        assert(spec_load_block(entries[i].stored, recs[i].data_compression) == Some(
            entries[i].data,
        ));
    }
}

/// The MD5 digests stand sixteen-aligned at the end of `out`, one for each
/// entry's stored bytes.
#[verifier::rlimit(100)]
proof fn lemma_trailer_bytes(
    out: Seq<u8>,
    entries: Seq<WrittenEntry>,
    recs: Seq<TreRecord>,
    hash_block: Seq<u8>,
    ts: int,
)
    requires
        spec_records_match(recs, entries),
        hash_block == spec_hashes_concat(entries),
        0 <= ts,
        ts + hash_block.len() <= out.len(),
        forall|k: int| 0 <= k < hash_block.len() ==> out[ts + k] == hash_block[k],
        forall|i: int|
            0 <= i < entries.len() ==> spec_entry_stored(out, #[trigger] recs[i])
                == entries[i].stored,
    ensures
        hash_block.len() == 16 * entries.len(),
        forall|i: int|
            0 <= i < entries.len() ==> out.subrange(ts + 16 * i, ts + 16 * i + 16) == md5_of(
                spec_entry_stored(out, #[trigger] recs[i]),
            ),
{
    assert forall|i: int|
        0 <= i < entries.len() implies md5_of((#[trigger] entries[i]).stored).len() == 16 by {
        assert(spec_record_matches(recs[i], entries, i));
    }
    lemma_hashes_len(entries);
    assert forall|i: int|
        0 <= i < entries.len() implies out.subrange(ts + 16 * i, ts + 16 * i + 16) == md5_of(
        spec_entry_stored(out, #[trigger] recs[i]),
    ) by {
        lemma_hashes_slice(entries, i);
        assert(out.subrange(ts + 16 * i, ts + 16 * i + 16) =~= hash_block.subrange(
            16 * i,
            16 * i + 16,
        ));
    }
}

/// A fully assembled archive satisfies every clause of [`spec_written`].
#[verifier::rlimit(100)]
proof fn lemma_finish_layout(
    out: Seq<u8>,
    entries: Seq<WrittenEntry>,
    recs: Seq<TreRecord>,
    header: TreHeader,
    data_block: Seq<u8>,
    rec_plain: Seq<u8>,
    rec_stored: Seq<u8>,
    name_block: Seq<u8>,
    name_stored: Seq<u8>,
    hash_block: Seq<u8>,
    view: Seq<(Seq<u8>, Seq<u8>, CompressionMethod)>,
    options: TreWriterOptions,
)
    requires
        spec_records_match(recs, entries),
        data_block == spec_stored_concat(entries),
        name_block == spec_names_concat(entries),
        hash_block == spec_hashes_concat(entries),
        out == header.spec_encode() + data_block + rec_stored + name_stored + hash_block,
        header.records == recs.len(),
        header.record_start == 36 + data_block.len(),
        header.record_compressed == rec_stored.len(),
        header.name_compressed == name_stored.len(),
        header.name_uncompressed == name_block.len(),
        rec_plain.len() == 24 * recs.len(),
        rec_plain == spec_records_bytes(recs),
        rec_stored == spec_store_block(rec_plain, options.record_compression),
        name_stored == spec_store_block(name_block, options.name_compression),
        forall|i: int|
            0 <= i < recs.len() ==> rec_plain.subrange(24 * i, 24 * i + 24) == (
            #[trigger] recs[i]).spec_encode(),
        spec_load_block(rec_stored, header.record_compression) == Some(rec_plain),
        spec_load_block(name_stored, header.name_compression) == Some(name_block),
        view == Seq::new(entries.len(), |i: int| (entries[i].name, entries[i].data, entries[i].method)),
        header.record_compression == options.record_compression,
        header.name_compression == options.name_compression,
    ensures
        spec_written(out, view, options),
{
    let dl = data_block.len() as int;
    let rl = rec_stored.len() as int;
    let sl = name_stored.len() as int;
    let tl = hash_block.len() as int;
    let n = entries.len() as int;
    assert(out.len() == 36 + dl + rl + sl + tl);
    assert(forall|k: int| 0 <= k < dl ==> out[36 + k] == data_block[k]);
    assert(forall|k: int| 0 <= k < rl ==> out[36 + dl + k] == rec_stored[k]);
    assert(forall|k: int| 0 <= k < sl ==> out[36 + dl + rl + k] == name_stored[k]);
    assert(forall|k: int| 0 <= k < tl ==> out[36 + dl + rl + sl + k] == hash_block[k]);
    lemma_finish_parses(
        out,
        entries,
        recs,
        header,
        data_block,
        rec_plain,
        rec_stored,
        name_block,
        name_stored,
        hash_block,
    );
    let names = Seq::new(entries.len(), |i: int| entries[i].name);
    let m = ArchiveModel { header, records: recs, names };
    assert(spec_parse_archive(out) == Some(m));
    assert(forall|i: int|
        0 <= i < n ==> (#[trigger] view[i]).0 == entries[i].name && view[i].1 == entries[i].data
            && view[i].2 == entries[i].method);
    assert(m.names =~= Seq::new(view.len(), |i: int| view[i].0));
    lemma_records_pinned(entries, recs, view);
    assert forall|j: int|
        0 <= j < n implies (#[trigger] entries[j]).stored == spec_store_block(
        entries[j].data,
        entries[j].method,
    ) by {
        assert(spec_record_matches(recs[j], entries, j));
    }
    assert(entries.take(n) =~= entries);
    lemma_names_size_of_concat(entries, view, n);
    assert(m.header.name_uncompressed == spec_names_size(view, view.len() as int));
    lemma_names_bytes_of_concat(entries, view);
    assert forall|i: int|
        0 <= i < n implies (#[trigger] m.records[i]).data_uncompressed == view[i].1.len()
        && m.records[i].data_compressed == spec_store_block(view[i].1, view[i].2).len()
        && m.records[i].name_offset == spec_names_size(view, i) by {
        assert(spec_record_matches(recs[i], entries, i));
        lemma_names_size_of_concat(entries, view, i);
    }
    lemma_stored_concat_sum(recs, entries);
    assert(m.header.record_start == 36 + spec_sum_compressed(m.records));
    assert forall|i: int|
        0 <= i < n implies (#[trigger] m.records[i]).data_offset == 36 + spec_sum_compressed(
        m.records.take(i),
    ) by {
        assert(spec_record_matches(recs[i], entries, i));
        assert(forall|k: int|
            0 <= k < i ==> (#[trigger] recs.take(i)[k]) == recs[k] && entries.take(i)[k]
                == entries[k]);
        assert(forall|k: int|
            0 <= k < i ==> (#[trigger] recs.take(i)[k]).data_compressed == entries.take(
                i,
            )[k].stored.len());
        lemma_stored_concat_sum(recs.take(i), entries.take(i));
    }
    lemma_entry_payloads(out, entries, recs, data_block);
    assert forall|i: int|
        0 <= i < n implies spec_entry_data(out, #[trigger] m.records[i]) == Some(view[i].1)
        && spec_entry_stored(out, m.records[i]) == spec_store_block(view[i].1, view[i].2) by {
        assert(spec_entry_data(out, recs[i]) == Some(entries[i].data));
        assert(spec_entry_stored(out, recs[i]) == entries[i].stored);
    }
    assert(spec_region(out, 36 + dl, rl) =~= rec_stored);
    assert(spec_region(out, m.header.record_start as int, m.header.record_compressed as int)
        == spec_store_block(spec_records_bytes(m.records), options.record_compression));
    assert(spec_region(out, 36 + dl + rl, sl) =~= name_stored);
    assert(spec_region(
        out,
        m.header.record_start + m.header.record_compressed,
        m.header.name_compressed as int,
    ) == spec_store_block(spec_names_bytes(view), options.name_compression));
    let ts = spec_trailer_start(header);
    assert(ts == 36 + dl + rl + sl);
    lemma_trailer_bytes(out, entries, recs, hash_block, ts);
    assert(out.len() == ts + 16 * n);
    assert(spec_written(out, view, options));
}

/// The bytes of a finished archive for a list of (name, payload, method)
/// entries written with the given options: they parse back to a model
/// whose records are exactly the ones the writer lays down, whose names
/// round-trip in order, whose blocks hold exactly the stored forms of the
/// record table and name block, and whose payloads and hash trailer agree
/// with the entries.
pub open spec fn spec_written(
    out: Seq<u8>,
    entries: Seq<(Seq<u8>, Seq<u8>, CompressionMethod)>,
    options: TreWriterOptions,
) -> bool {
    match spec_parse_archive(out) {
        Some(m) => {
            &&& m.records.len() == entries.len()
            &&& m.header.records == entries.len()
            &&& m.header.record_compression == options.record_compression
            &&& m.header.name_compression == options.name_compression
            &&& m.header.name_uncompressed == spec_names_size(entries, entries.len() as int)
            &&& m.names == Seq::new(entries.len(), |i: int| entries[i].0)
            &&& forall|i: int|
                0 <= i < entries.len() ==> #[trigger] m.records[i] == spec_record_of(entries, i)
            &&& forall|i: int|
                0 <= i < entries.len() ==> (#[trigger] m.records[i]).data_uncompressed
                    == entries[i].1.len()
            &&& forall|i: int|
                0 <= i < entries.len() ==> (#[trigger] m.records[i]).data_compressed
                    == spec_store_block(entries[i].1, entries[i].2).len()
            &&& forall|i: int|
                0 <= i < entries.len() ==> spec_entry_stored(out, #[trigger] m.records[i])
                    == spec_store_block(entries[i].1, entries[i].2)
            &&& forall|i: int|
                0 <= i < entries.len() ==> spec_entry_data(out, #[trigger] m.records[i]) == Some(
                    entries[i].1,
                )
            &&& m.header.record_start == 36 + spec_sum_compressed(m.records)
            &&& forall|i: int|
                0 <= i < entries.len() ==> (#[trigger] m.records[i]).data_offset == 36
                    + spec_sum_compressed(m.records.take(i))
            &&& forall|i: int|
                0 <= i < entries.len() ==> (#[trigger] m.records[i]).name_offset
                    == spec_names_size(entries, i)
            &&& spec_region(out, m.header.record_start as int, m.header.record_compressed as int)
                == spec_store_block(spec_records_bytes(m.records), options.record_compression)
            &&& m.header.record_compressed == spec_store_block(
                spec_records_bytes(m.records),
                options.record_compression,
            ).len()
            &&& spec_region(
                out,
                m.header.record_start + m.header.record_compressed,
                m.header.name_compressed as int,
            ) == spec_store_block(spec_names_bytes(entries), options.name_compression)
            &&& m.header.name_compressed == spec_store_block(
                spec_names_bytes(entries),
                options.name_compression,
            ).len()
            &&& out.len() == spec_trailer_start(m.header) + 16 * entries.len()
            &&& forall|i: int|
                0 <= i < entries.len() ==> out.subrange(
                    spec_trailer_start(m.header) + 16 * i,
                    spec_trailer_start(m.header) + 16 * i + 16,
                ) == md5_of(spec_entry_stored(out, #[trigger] m.records[i]))
        },
        None => false,
    }
}

/// Round trip: a reader opened on bytes a writer produced sees exactly the
/// written entries — the same count, the same raw names in insertion order,
/// the same name checksums, methods and uncompressed sizes, and payloads
/// that load back to exactly the written bytes.
pub proof fn lemma_write_read_round_trip(
    out: Seq<u8>,
    entries: Seq<(Seq<u8>, Seq<u8>, CompressionMethod)>,
    options: TreWriterOptions,
    a: TreArchive,
)
    requires
        spec_written(out, entries, options),
        a.wf(),
        a.spec_bytes() == out,
    ensures
        a@.len() == entries.len(),
        forall|i: int| 0 <= i < entries.len() ==> (#[trigger] a@[i]).name_raw == entries[i].0,
        forall|i: int|
            0 <= i < entries.len() ==> (#[trigger] a@[i]).uncompressed_size == entries[i].1.len(),
        forall|i: int|
            0 <= i < entries.len() ==> (#[trigger] a@[i]).compression_method == entries[i].2,
        forall|i: int|
            0 <= i < entries.len() ==> (#[trigger] a@[i]).crc32 == crc32_bzip2_of(entries[i].0),
        forall|i: int| 0 <= i < entries.len() ==> spec_entry_data_at(a, i) == Some(entries[i].1),
    {
    let m = spec_parse_archive(out).unwrap();
    assert(a@ == spec_archive_view(m));
    assert(a@.len() == m.records.len());
    assert(forall|i: int| 0 <= i < entries.len() ==> #[trigger] a@[i] == spec_file_view(m, i));
    assert(forall|i: int| 0 <= i < entries.len() ==> #[trigger] m.names[i] == entries[i].0);
    assert forall|i: int|
        0 <= i < entries.len() implies (#[trigger] a@[i]).crc32 == crc32_bzip2_of(entries[i].0)
        && a@[i].compression_method == entries[i].2 by {
        assert(m.records[i] == spec_record_of(entries, i));
    }
    assert forall|i: int|
        0 <= i < entries.len() implies spec_entry_data_at(a, i) == Some(entries[i].1) by {
        assert(a@[i] == spec_file_view(m, i));
        assert(a@[i].data_start == m.records[i].data_offset as u64);
        assert(a@[i].compressed_size == m.records[i].data_compressed as u64);
        assert(a@[i].compression_method == m.records[i].data_compression);
        assert(spec_entry_data(out, m.records[i]) == Some(entries[i].1));
        assert(spec_entry_data_at(a, i) == spec_entry_data(out, m.records[i]));
    }
}

} // verus!
