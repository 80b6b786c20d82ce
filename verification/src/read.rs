//! Reading TRE archives: parsing the header, record table and name block,
//! and extracting per-entry payloads with transparent decompression.

use vstd::prelude::*;

use crate::compression::{load_block, spec_load_block, CompressionMethod};
use crate::error::{Error, FileNotFoundError};
use crate::types::{TreHeader, TreRecord};

verus! {

/// Spec-level model of a parsed archive: the header together with the
/// parallel sequences of records and raw entry names.
#[verifier::ext_equal]
pub struct ArchiveModel {
    pub header: TreHeader,
    pub records: Seq<TreRecord>,
    pub names: Seq<Seq<u8>>,
}

/// The bytes available in `[start, start + len)` of `bytes`, clipped to the
/// end of the input, as a block reader limited to that region sees them.
pub open spec fn spec_region(bytes: Seq<u8>, start: int, len: int) -> Seq<u8>
    recommends
        0 <= start,
        0 <= len,
{
    let lo = if start <= bytes.len() {
        start
    } else {
        bytes.len() as int
    };
    let hi = if start + len <= bytes.len() {
        start + len
    } else {
        bytes.len() as int
    };
    bytes.subrange(lo, hi)
}

/// The index of the first NUL byte of `s`, or `-1` when there is none.
pub open spec fn spec_find_nul(s: Seq<u8>) -> int
    decreases s.len(),
{
    if s.len() == 0 {
        -1
    } else if s[0] == 0 {
        0
    } else {
        let r = spec_find_nul(s.skip(1));
        if r < 0 {
            -1
        } else {
            r + 1
        }
    }
}

/// The first NUL of `s` stands at `k` exactly when `s[k]` is NUL and no
/// earlier byte is.
pub proof fn lemma_find_nul_at(s: Seq<u8>, k: int)
    requires
        0 <= k < s.len(),
        s[k] == 0,
        forall|j: int| 0 <= j < k ==> s[j] != 0,
    ensures
        spec_find_nul(s) == k,
    decreases k,
{
    if k > 0 {
        lemma_find_nul_at(s.skip(1), k - 1);
    }
}

/// A sequence without NUL bytes has no first NUL.
pub proof fn lemma_find_nul_none(s: Seq<u8>)
    requires
        forall|j: int| 0 <= j < s.len() ==> s[j] != 0,
    ensures
        spec_find_nul(s) == -1,
    decreases s.len(),
{
    if s.len() > 0 {
        lemma_find_nul_none(s.skip(1));
    }
}

/// When `n` names parse, exactly `n` names come out.
pub proof fn lemma_parse_names_len(s: Seq<u8>, n: nat)
    ensures
        spec_parse_names(s, n) matches Some(v) ==> v.len() == n,
    decreases n,
{
    if n > 0 {
        let i = spec_find_nul(s);
        if i >= 0 {
            lemma_parse_names_len(s.skip(i + 1), (n - 1) as nat);
        }
    }
}

/// The `n` NUL-terminated names at the front of `s`, in order; `None` when
/// fewer than `n` NULs remain.
pub open spec fn spec_parse_names(s: Seq<u8>, n: nat) -> Option<Seq<Seq<u8>>>
    decreases n,
{
    if n == 0 {
        Some(Seq::empty())
    } else {
        let i = spec_find_nul(s);
        if i < 0 {
            None
        } else {
            match spec_parse_names(s.skip(i + 1), (n - 1) as nat) {
                Some(rest) => Some(seq![s.take(i)] + rest),
                None => None,
            }
        }
    }
}

/// The `n` records packed back-to-back at the front of `s`; `None` when `s`
/// is too short or some record has an invalid compression tag.
pub open spec fn spec_parse_records(s: Seq<u8>, n: nat) -> Option<Seq<TreRecord>> {
    if s.len() < 24 * n {
        None
    } else if forall|i: int| 0 <= i < n ==> #[trigger] TreRecord::spec_parse_at(s, 24 * i) is Some {
        Some(Seq::new(n, |i: int| TreRecord::spec_parse_at(s, 24 * i).unwrap()))
    } else {
        None
    }
}

/// The archive metadata parsed from `bytes`; `None` when the header magic or
/// a compression tag is invalid, a metadata block is corrupt, or the blocks
/// hold fewer records or names than the header announces.
pub open spec fn spec_parse_archive(bytes: Seq<u8>) -> Option<ArchiveModel> {
    match TreHeader::spec_parse(bytes) {
        None => None,
        Some(h) => if h.records == 0 {
            Some(ArchiveModel { header: h, records: Seq::empty(), names: Seq::empty() })
        } else {
            let rstored = spec_region(bytes, h.record_start as int, h.record_compressed as int);
            match spec_load_block(rstored, h.record_compression) {
                None => None,
                Some(rplain) => match spec_parse_records(rplain, h.records as nat) {
                    None => None,
                    Some(records) => {
                        let nstored = spec_region(
                            bytes,
                            h.record_start + h.record_compressed,
                            h.name_compressed as int,
                        );
                        match spec_load_block(nstored, h.name_compression) {
                            None => None,
                            Some(nplain) => match spec_parse_names(nplain, h.records as nat) {
                                None => None,
                                Some(names) => Some(
                                    ArchiveModel { header: h, records, names },
                                ),
                            },
                        }
                    },
                },
            }
        },
    }
}

/// Magic rejection: input whose first eight bytes are not exactly the
/// archive magic never parses, so [`TreArchive::new`] rejects it as an
/// invalid archive.
pub proof fn lemma_magic_rejection(bytes: Seq<u8>)
    requires
        !(bytes.len() >= 8 && bytes.subrange(0, 8) == crate::types::spec_magic()),
    ensures
        spec_parse_archive(bytes) is None,
{
    if bytes.len() >= 36 {
        assert(bytes.subrange(0, 8) != crate::types::spec_magic());
        assert(TreHeader::spec_parse(bytes) is None);
    }
}

/// The stored (possibly compressed) bytes of the entry a record describes.
pub open spec fn spec_entry_stored(bytes: Seq<u8>, r: TreRecord) -> Seq<u8> {
    spec_region(bytes, r.data_offset as int, r.data_compressed as int)
}

/// The logical payload of the entry a record describes: its stored region
/// decompressed; `None` when a zlib-stored payload is corrupt.
pub open spec fn spec_entry_data(bytes: Seq<u8>, r: TreRecord) -> Option<Seq<u8>> {
    spec_load_block(spec_entry_stored(bytes, r), r.data_compression)
}

/// The characters `String::from_utf8_lossy` yields for a byte sequence: a
/// function of the bytes alone; on valid UTF-8 it is exactly the decoding.
pub uninterp spec fn lossy_utf8_of(bytes: Seq<u8>) -> Seq<char>;

/// Relies on `String::from_utf8_lossy`: it decodes valid UTF-8 exactly and
/// replaces invalid sequences with the replacement character.
#[verifier::external_body]
pub(crate) fn utf8_lossy(bytes: &[u8]) -> (r: String)
    ensures
        r@ == lossy_utf8_of(bytes@),
        vstd::utf8::valid_utf8(bytes@) ==> r@ == vstd::utf8::decode_utf8(bytes@),
{
    String::from_utf8_lossy(bytes).into_owned()
}

/// Compares two string slices for equality of their characters.
pub(crate) fn str_eq(a: &str, b: &str) -> (r: bool)
    ensures
        r == (a@ == b@),
{
    let ab = a.as_bytes();
    let bb = b.as_bytes();
    proof {
        broadcast use vstd::utf8::encode_utf8_decode_utf8;

    }
    if ab.len() != bb.len() {
        return false;
    }
    let n = ab.len();
    let mut i: usize = 0;
    while i < n
        invariant
            n == ab.len() == bb.len(),
            ab@ == vstd::utf8::encode_utf8(a@),
            bb@ == vstd::utf8::encode_utf8(b@),
            0 <= i <= n,
            forall|j: int| 0 <= j < i ==> ab@[j] == bb@[j],
        decreases n - i,
    {
        if ab[i] != bb[i] {
            proof {
                broadcast use vstd::utf8::encode_utf8_decode_utf8;

                assert(ab@[i as int] != bb@[i as int]);
            }
            return false;
        }
        i += 1;
    }
    proof {
        broadcast use vstd::utf8::encode_utf8_decode_utf8;

        assert(ab@ =~= bb@);
        assert(a@ == vstd::utf8::decode_utf8(vstd::utf8::encode_utf8(a@)));
        assert(b@ == vstd::utf8::decode_utf8(vstd::utf8::encode_utf8(b@)));
    }
    true
}

/// Parses `n` NUL-terminated names from the front of `plain`.
#[verifier::loop_isolation(false)]
fn parse_names_exec(plain: &[u8], n: u32) -> (r: Option<Vec<Vec<u8>>>)
    ensures
        match r {
            Some(v) => spec_parse_names(plain@, n as nat) == Some(v.deep_view()),
            None => spec_parse_names(plain@, n as nat) is None,
        },
{
    let len = plain.len();
    let mut out: Vec<Vec<u8>> = Vec::new();
    let mut pos: usize = 0;
    let mut count: u32 = 0;
    proof {
        assert(plain@.skip(0) =~= plain@);
        match spec_parse_names(plain@, n as nat) {
            Some(rest) => {
                assert(out.deep_view() + rest =~= rest);
            },
            None => {},
        }
    }
    while count < n
        invariant
            pos <= len,
            len == plain@.len(),
            count <= n,
            out@.len() == count,
            (match spec_parse_names(plain@.skip(pos as int), (n - count) as nat) {
                Some(rest) => spec_parse_names(plain@, n as nat) == Some(out.deep_view() + rest),
                None => spec_parse_names(plain@, n as nat) is None,
            }),
        decreases n - count,
    {
        let ghost pos0 = pos as int;
        let ghost out0 = out.deep_view();
        let ghost s0 = plain@.skip(pos0);
        let ghost m = (n - count) as nat;
        let mut k: usize = pos;
        while k < len && *vstd::slice::slice_index_get(plain, k) != 0
            invariant
                pos <= k <= len,
                forall|j: int| pos <= j < k ==> plain@[j] != 0,
            decreases len - k,
        {
            k += 1;
        }
        proof {
            assert(forall|j: int| 0 <= j < s0.len() ==> s0[j] == plain@[pos0 + j]);
        }
        if k == len {
            proof {
                assert(forall|j: int| 0 <= j < s0.len() ==> s0[j] != 0);
                lemma_find_nul_none(s0);
            }
            return None;
        }
        proof {
            assert(plain@[k as int] == 0);
            lemma_find_nul_at(s0, k - pos0);
        }
        let name = vstd::slice::slice_to_vec(vstd::slice::slice_subrange(plain, pos, k));
        proof {
            assert(name@ =~= s0.take(k - pos0));
        }
        out.push(name);
        pos = k + 1;
        count = count + 1;
        proof {
            let nul = spec_find_nul(s0);
            assert(nul == k - pos0);
            let s1 = plain@.skip(pos as int);
            assert(s0.skip(nul + 1) =~= s1);
            let namev = s0.take(nul);
            assert(out.deep_view() =~~= out0 + seq![namev]) by {
                assert(forall|i: int| 0 <= i < out0.len() ==> out.deep_view()[i] == out0[i]);
                assert(out.deep_view()[out0.len() as int] =~= namev);
            }
            match spec_parse_names(s1, (n - count) as nat) {
                Some(rest1) => {
                    assert(spec_parse_names(s0, m) == Some(seq![namev] + rest1));
                    assert(out0 + (seq![namev] + rest1) =~= (out0 + seq![namev]) + rest1);
                },
                None => {
                    assert(spec_parse_names(s0, m) is None);
                },
            }
        }
    }
    proof {
        let s = plain@.skip(pos as int);
        assert(spec_parse_names(s, (n - count) as nat) == Some(Seq::<Seq<u8>>::empty()));
        assert(out.deep_view() + Seq::<Seq<u8>>::empty() =~= out.deep_view());
    }
    Some(out)
}

/// Parses `n` records packed at the front of `plain`.
#[verifier::loop_isolation(false)]
fn parse_records_exec(plain: &[u8], n: u32) -> (r: Option<Vec<TreRecord>>)
    ensures
        match r {
            Some(v) => spec_parse_records(plain@, n as nat) == Some(v@),
            None => spec_parse_records(plain@, n as nat) is None,
        },
{
    let len = plain.len();
    if (len as u64) < 24u64 * (n as u64) {
        return None;
    }
    let mut out: Vec<TreRecord> = Vec::new();
    let mut i: u32 = 0;
    while i < n
        invariant
            i <= n,
            out@.len() == i,
            forall|j: int|
                0 <= j < i ==> #[trigger] TreRecord::spec_parse_at(plain@, 24 * j) == Some(
                    out@[j],
                ),
        decreases n - i,
    {
        let off: usize = 24 * (i as usize);
        match TreRecord::parse_at(plain, off) {
            Some(rec) => {
                out.push(rec);
            },
            None => {
                proof {
                    assert(TreRecord::spec_parse_at(plain@, 24 * (i as int)) is None);
                }
                return None;
            },
        }
        i = i + 1;
    }
    proof {
        assert(Seq::new(n as nat, |j: int| TreRecord::spec_parse_at(plain@, 24 * j).unwrap())
            =~= out@);
    }
    Some(out)
}

/// Extracts the clipped region `[start, start + len)` of `bytes`.
pub(crate) fn region<'a>(bytes: &'a [u8], start: u64, len: u64) -> (r: &'a [u8])
    requires
        start <= 0x1_0000_0000_0000,
        len <= 0x1_0000_0000_0000,
    ensures
        r@ == spec_region(bytes@, start as int, len as int),
{
    let blen: u64 = bytes.len() as u64;
    let lo: u64 = if start <= blen {
        start
    } else {
        blen
    };
    let hi: u64 = if start + len <= blen {
        start + len
    } else {
        blen
    };
    vstd::slice::slice_subrange(bytes, lo as usize, hi as usize)
}

/// Metadata of one archive entry.
#[derive(Debug, Clone)]
pub struct TreFileData {
    /// CRC-32/BZIP2 checksum of the entry's name bytes.
    pub crc32: u32,
    /// Method used to compress the entry's payload.
    pub compression_method: CompressionMethod,
    /// Size of the payload as stored in the archive.
    pub compressed_size: u64,
    /// Size of the payload when extracted.
    pub uncompressed_size: u64,
    /// Name of the entry, lossily decoded as UTF-8.
    pub file_name: String,
    /// Raw name bytes, kept for when the name is not valid UTF-8.
    pub file_name_raw: Vec<u8>,
    /// Where the local header of the entry starts (reserved, zero).
    pub header_start: u64,
    /// Where the stored payload of the entry starts.
    pub data_start: u64,
}

/// Spec-level view of one archive entry.
#[verifier::ext_equal]
pub struct FileView {
    pub crc32: u32,
    pub compression_method: CompressionMethod,
    pub compressed_size: u64,
    pub uncompressed_size: u64,
    pub name: Seq<char>,
    pub name_raw: Seq<u8>,
    pub header_start: u64,
    pub data_start: u64,
}

impl View for TreFileData {
    type V = FileView;

    open spec fn view(&self) -> FileView {
        FileView {
            crc32: self.crc32,
            compression_method: self.compression_method,
            compressed_size: self.compressed_size,
            uncompressed_size: self.uncompressed_size,
            name: self.file_name@,
            name_raw: self.file_name_raw@,
            header_start: self.header_start,
            data_start: self.data_start,
        }
    }
}

impl Default for TreFileData {
    /// An empty entry: zero sizes and offsets, empty names, the default
    /// zlib payload compression.
    fn default() -> (r: TreFileData)
        ensures
            r@ == (FileView {
                crc32: 0,
                compression_method: CompressionMethod::Zlib,
                compressed_size: 0,
                uncompressed_size: 0,
                name: Seq::empty(),
                name_raw: Seq::empty(),
                header_start: 0,
                data_start: 0,
            }),
    {
        TreFileData {
            crc32: 0,
            compression_method: CompressionMethod::Zlib,
            compressed_size: 0,
            uncompressed_size: 0,
            file_name: String::new(),
            file_name_raw: Vec::new(),
            header_start: 0,
            data_start: 0,
        }
    }
}

/// The view entry `i` of a parsed model presents.
pub open spec fn spec_file_view(m: ArchiveModel, i: int) -> FileView {
    FileView {
        crc32: m.records[i].checksum,
        compression_method: m.records[i].data_compression,
        compressed_size: m.records[i].data_compressed as u64,
        uncompressed_size: m.records[i].data_uncompressed as u64,
        name: lossy_utf8_of(m.names[i]),
        name_raw: m.names[i],
        header_start: 0,
        data_start: m.records[i].data_offset as u64,
    }
}

/// The entry views of a parsed model, in insertion order.
pub open spec fn spec_archive_view(m: ArchiveModel) -> Seq<FileView> {
    Seq::new(m.records.len(), |i: int| spec_file_view(m, i))
}

/// One entry read from an archive: its metadata together with its fully
/// decompressed payload bytes.
#[derive(Debug, Clone)]
pub struct TreFile {
    meta: TreFileData,
    content: Vec<u8>,
}

impl View for TreFile {
    type V = FileView;

    closed spec fn view(&self) -> FileView {
        self.meta@
    }
}

impl TreFile {
    /// The decompressed payload bytes of this entry.
    pub closed spec fn spec_data(self) -> Seq<u8> {
        self.content@
    }

    /// The name of the entry, lossily decoded as UTF-8.
    ///
    /// Never use this name directly as a filesystem path when extracting an
    /// archive: it may be absolute or climb out of the target directory.
    pub fn name(&self) -> (r: &str)
        ensures
            r@ == self@.name,
    {
        self.meta.file_name.as_str()
    }

    /// The raw (undecoded) name bytes of the entry.
    pub fn name_raw(&self) -> (r: &[u8])
        ensures
            r@ == self@.name_raw,
    {
        self.meta.file_name_raw.as_slice()
    }

    /// The size of the entry's payload as stored in the archive.
    pub fn compressed_size(&self) -> (r: u64)
        ensures
            r == self@.compressed_size,
    {
        self.meta.compressed_size
    }

    /// The size of the entry's payload when uncompressed.
    pub fn size(&self) -> (r: u64)
        ensures
            r == self@.uncompressed_size,
    {
        self.meta.uncompressed_size
    }

    /// The CRC-32/BZIP2 checksum of the entry's name bytes.
    pub fn crc32(&self) -> (r: u32)
        ensures
            r == self@.crc32,
    {
        self.meta.crc32
    }

    /// The absolute offset where the entry's stored payload starts.
    pub fn data_start(&self) -> (r: u64)
        ensures
            r == self@.data_start,
    {
        self.meta.data_start
    }

    /// The compression method of the entry's payload.
    pub fn compression_method(&self) -> (r: CompressionMethod)
        ensures
            r == self@.compression_method,
    {
        self.meta.compression_method
    }

    /// The decompressed payload bytes.
    pub fn data(&self) -> (r: &Vec<u8>)
        ensures
            r@ == self.spec_data(),
    {
        &self.content
    }

    /// Consumes the entry, returning its decompressed payload bytes.
    pub fn into_data(self) -> (r: Vec<u8>)
        ensures
            r@ == self.spec_data(),
    {
        self.content
    }
}

/// Entry `i` of `files` is the first one bearing `name`.
pub open spec fn spec_first_with_name(files: Seq<FileView>, name: Seq<char>, i: int) -> bool {
    &&& 0 <= i < files.len()
    &&& files[i].name == name
    &&& forall|j: int| 0 <= j < i ==> files[j].name != name
}

/// TRE archive reader.
///
/// Holds the archive bytes and the metadata parsed from them; per-entry
/// payloads are extracted and decompressed on demand.
pub struct TreArchive {
    bytes: Vec<u8>,
    header: TreHeader,
    files: Vec<TreFileData>,
}

impl View for TreArchive {
    type V = Seq<FileView>;

    closed spec fn view(&self) -> Seq<FileView> {
        Seq::new(self.files@.len(), |i: int| self.files@[i]@)
    }
}

impl TreArchive {
    /// The raw archive bytes the reader was opened on.
    pub closed spec fn spec_bytes(self) -> Seq<u8> {
        self.bytes@
    }

    /// The parsed archive header.
    pub closed spec fn spec_header(self) -> TreHeader {
        self.header
    }

    /// A reader is well-formed when its header and entries are exactly the
    /// parse of its bytes.
    pub open spec fn wf(self) -> bool {
        match spec_parse_archive(self.spec_bytes()) {
            Some(m) => self.spec_header() == m.header && self@ == spec_archive_view(m),
            None => false,
        }
    }

    /// Reads a TRE archive, collecting the entries it contains; fails with
    /// [`Error::InvalidArchive`] exactly when the metadata does not parse.
    #[verifier::loop_isolation(false)]
    pub fn new(bytes: Vec<u8>) -> (r: Result<TreArchive, Error>)
        ensures
            match r {
                Ok(a) => a.wf() && a.spec_bytes() == bytes@,
                Err(e) => e == Error::InvalidArchive && spec_parse_archive(bytes@) is None,
            },
    {
        let h = match TreHeader::parse(bytes.as_slice()) {
            Some(h) => h,
            None => {
                return Err(Error::InvalidArchive);
            },
        };
        if h.records == 0 {
            let a = TreArchive { bytes, header: h, files: Vec::new() };
            proof {
                let m = ArchiveModel {
                    header: h,
                    records: Seq::empty(),
                    names: Seq::empty(),
                };
                assert(spec_parse_archive(a.spec_bytes()) == Some(m));
                assert(a@ =~= spec_archive_view(m));
            }
            return Ok(a);
        }
        let rstored = region(bytes.as_slice(), h.record_start as u64, h.record_compressed as u64);
        let rplain = match load_block(rstored, h.record_compression) {
            Some(v) => v,
            None => {
                return Err(Error::InvalidArchive);
            },
        };
        let records = match parse_records_exec(rplain.as_slice(), h.records) {
            Some(v) => v,
            None => {
                return Err(Error::InvalidArchive);
            },
        };
        let nstart: u64 = h.record_start as u64 + h.record_compressed as u64;
        let nstored = region(bytes.as_slice(), nstart, h.name_compressed as u64);
        let nplain = match load_block(nstored, h.name_compression) {
            Some(v) => v,
            None => {
                return Err(Error::InvalidArchive);
            },
        };
        let names = match parse_names_exec(nplain.as_slice(), h.records) {
            Some(v) => v,
            None => {
                return Err(Error::InvalidArchive);
            },
        };
        let ghost m = ArchiveModel { header: h, records: records@, names: names.deep_view() };
        proof {
            assert(spec_parse_archive(bytes@) == Some(m));
        }
        let n = records.len();
        proof {
            lemma_parse_names_len(nplain@, h.records as nat);
            assert(names.deep_view().len() == names@.len());
            assert(n == names@.len());
        }
        let mut files: Vec<TreFileData> = Vec::new();
        let mut i: usize = 0;
        while i < n
            invariant
                i <= n,
                files@.len() == i,
                forall|j: int| 0 <= j < i ==> #[trigger] files@[j]@ == spec_file_view(m, j),
            decreases n - i,
        {
            let rec = records[i];
            let name_ref = &names[i];
            proof {
                assert(name_ref@ =~= m.names[i as int]);
            }
            let fname = utf8_lossy(name_ref.as_slice());
            let fraw = name_ref.clone();
            proof {
                assert(fraw@ =~= name_ref@);
            }
            files.push(
                TreFileData {
                    crc32: rec.checksum,
                    compression_method: rec.data_compression,
                    compressed_size: rec.data_compressed as u64,
                    uncompressed_size: rec.data_uncompressed as u64,
                    file_name: fname,
                    file_name_raw: fraw,
                    header_start: 0,
                    data_start: rec.data_offset as u64,
                },
            );
            proof {
                assert(files@[i as int]@ =~= spec_file_view(m, i as int));
            }
            i = i + 1;
        }
        let a = TreArchive { bytes, header: h, files };
        proof {
            assert(a@ =~= spec_archive_view(m));
        }
        Ok(a)
    }

    /// The number of entries contained in this archive.
    pub fn len(&self) -> (r: usize)
        ensures
            r == self@.len(),
    {
        self.files.len()
    }

    /// Whether this archive contains no entries.
    pub fn is_empty(&self) -> (r: bool)
        ensures
            r == (self@.len() == 0),
    {
        self.files.len() == 0
    }

    /// The names of all entries, in insertion order.
    pub fn file_names(&self) -> (r: Vec<String>)
        ensures
            r@.len() == self@.len(),
            forall|i: int| 0 <= i < r@.len() ==> #[trigger] r@[i]@ == self@[i].name,
    {
        let n = self.files.len();
        let mut out: Vec<String> = Vec::new();
        let mut i: usize = 0;
        while i < n
            invariant
                i <= n,
                n == self.files@.len(),
                out@.len() == i,
                forall|j: int| 0 <= j < i ==> #[trigger] out@[j]@ == self@[j].name,
            decreases n - i,
        {
            out.push(self.files[i].file_name.clone());
            i = i + 1;
        }
        out
    }

    /// How the record metadata block was compressed.
    pub fn get_record_compression(&self) -> (r: CompressionMethod)
        ensures
            r == self.spec_header().record_compression,
    {
        self.header.record_compression
    }

    /// The on-disk size of the record metadata block.
    pub fn get_record_block_size(&self) -> (r: u32)
        ensures
            r == self.spec_header().record_compressed,
    {
        self.header.record_compressed
    }

    /// How the name block was compressed.
    pub fn get_name_compression(&self) -> (r: CompressionMethod)
        ensures
            r == self.spec_header().name_compression,
    {
        self.header.name_compression
    }

    /// The on-disk size of the name block.
    pub fn get_name_block_size(&self) -> (r: u32)
        ensures
            r == self.spec_header().name_compressed,
    {
        self.header.name_compressed
    }

    /// The index of the first entry bearing `name`, if any is present.
    pub fn index_for_name(&self, name: &str) -> (r: Option<usize>)
        ensures
            match r {
                Some(i) => spec_first_with_name(self@, name@, i as int),
                None => forall|j: int| 0 <= j < self@.len() ==> self@[j].name != name@,
            },
    {
        let n = self.files.len();
        let mut i: usize = 0;
        while i < n
            invariant
                i <= n,
                n == self.files@.len(),
                forall|j: int| 0 <= j < i ==> self@[j].name != name@,
            decreases n - i,
        {
            if str_eq(self.files[i].file_name.as_str(), name) {
                return Some(i);
            }
            i = i + 1;
        }
        None
    }

    /// The name of the entry at `index`, if the index is in range.
    pub fn name_for_index(&self, index: usize) -> (r: Option<&str>)
        ensures
            match r {
                Some(s) => index < self@.len() && s@ == self@[index as int].name,
                None => index >= self@.len(),
            },
    {
        if index < self.files.len() {
            Some(self.files[index].file_name.as_str())
        } else {
            None
        }
    }

    /// Unwraps and returns the archive bytes.
    pub fn into_inner(self) -> (r: Vec<u8>)
        ensures
            r@ == self.spec_bytes(),
    {
        self.bytes
    }
}

/// The logical payload of entry `i` of an archive: the stored region its
/// record points at, decompressed with the record's method.
pub open spec fn spec_entry_data_at(a: TreArchive, i: int) -> Option<Seq<u8>> {
    spec_load_block(
        spec_region(a.spec_bytes(), a@[i].data_start as int, a@[i].compressed_size as int),
        a@[i].compression_method,
    )
}

impl TreArchive {
    /// Extracts the entry at `file_number`, decompressing its payload;
    /// fails with a not-found error past the end and with an I/O error
    /// exactly when a zlib-stored payload is corrupt.
    pub fn by_index(&self, file_number: usize) -> (r: Result<TreFile, Error>)
        requires
            self.wf(),
        ensures
            file_number < self@.len() ==> (match r {
                Ok(f) => f@ == self@[file_number as int] && Some(f.spec_data())
                    == spec_entry_data_at(*self, file_number as int),
                Err(e) => (e matches Error::IOError(_)) && spec_entry_data_at(
                    *self,
                    file_number as int,
                ) is None,
            }),
            file_number >= self@.len() ==> r == Err::<TreFile, Error>(
                Error::FileNotFound(FileNotFoundError::Index(file_number)),
            ),
    {
        if file_number >= self.files.len() {
            return Err(Error::FileNotFound(FileNotFoundError::Index(file_number)));
        }
        let fd = &self.files[file_number];
        let meta = TreFileData {
            crc32: fd.crc32,
            compression_method: fd.compression_method,
            compressed_size: fd.compressed_size,
            uncompressed_size: fd.uncompressed_size,
            file_name: fd.file_name.clone(),
            file_name_raw: fd.file_name_raw.clone(),
            header_start: fd.header_start,
            data_start: fd.data_start,
        };
        proof {
            assert(meta.file_name_raw@ =~= fd.file_name_raw@);
            assert(meta@ =~= fd@);
            let m = spec_parse_archive(self.spec_bytes()).unwrap();
            let i = file_number as int;
            assert(self@ == spec_archive_view(m));
            assert(self@.len() == spec_archive_view(m).len());
            assert(spec_archive_view(m).len() == m.records.len());
            assert(0 <= i < m.records.len());
            assert(self@[i] == spec_archive_view(m)[i]);
            assert(spec_archive_view(m)[i] == spec_file_view(m, i));
            assert(fd@ == self@[i]);
            assert(self@[i].data_start <= 0xffff_ffff);
            assert(self@[i].compressed_size <= 0xffff_ffff);
        }
        let stored = region(self.bytes.as_slice(), fd.data_start, fd.compressed_size);
        match load_block(stored, fd.compression_method) {
            Some(content) => Ok(TreFile { meta, content }),
            None => Err(Error::IOError("corrupt stored data".to_owned())),
        }
    }

    /// Extracts the first entry bearing `name`; fails with a not-found
    /// error when no entry bears it.
    pub fn by_name(&self, name: &str) -> (r: Result<TreFile, Error>)
        requires
            self.wf(),
        ensures
            match r {
                Ok(f) => exists|i: int|
                    #[trigger] spec_first_with_name(self@, name@, i) && f@ == self@[i] && Some(
                        f.spec_data(),
                    ) == spec_entry_data_at(*self, i),
                Err(Error::FileNotFound(FileNotFoundError::Name(s))) => s@ == name@ && forall|
                    j: int,
                |
                    0 <= j < self@.len() ==> self@[j].name != name@,
                Err(Error::IOError(_)) => exists|i: int|
                    #[trigger] spec_first_with_name(self@, name@, i) && spec_entry_data_at(
                        *self,
                        i,
                    ) is None,
                Err(_) => false,
            },
    {
        let index = match self.index_for_name(name) {
            Some(i) => i,
            None => {
                return Err(Error::FileNotFound(FileNotFoundError::Name(name.to_owned())));
            },
        };
        self.by_index(index)
    }
}

/// The sum of the uncompressed sizes of the first `i` entries.
pub open spec fn spec_total_size(files: Seq<FileView>, i: int) -> int
    decreases i,
{
    if i <= 0 {
        0
    } else {
        spec_total_size(files, i - 1) + files[i - 1].uncompressed_size
    }
}

impl TreArchive {
    /// The total size of the entries when uncompressed, not counting
    /// metadata. Record sizes are 32-bit, so the sum always fits.
    #[verifier::loop_isolation(false)]
    pub fn decompressed_size(&self) -> (r: Option<u128>)
        requires
            self.wf(),
        ensures
            match r {
                Some(t) => t == spec_total_size(self@, self@.len() as int),
                None => false,
            },
    {
        let n = self.files.len();
        proof {
            let m = spec_parse_archive(self.spec_bytes()).unwrap();
            assert(self@ == spec_archive_view(m));
            assert(forall|j: int|
                0 <= j < n ==> #[trigger] self@[j].uncompressed_size <= 0xffff_ffff) by {
                assert(forall|j: int|
                    0 <= j < n ==> #[trigger] self@[j] == spec_archive_view(m)[j]
                        && spec_archive_view(m)[j] == spec_file_view(m, j));
            }
        }
        let mut total: u128 = 0;
        let mut i: usize = 0;
        while i < n
            invariant
                i <= n,
                total == spec_total_size(self@, i as int),
                total <= (i as int) * 0x1_0000_0000,
            decreases n - i,
        {
            let x = self.files[i].uncompressed_size;
            proof {
                assert(self@[i as int] == self.files@[i as int]@);
                assert(x <= 0xffff_ffff);
                assert((i as int) * 0x1_0000_0000 + 0x1_0000_0000 == ((i + 1) as int)
                    * 0x1_0000_0000) by (nonlinear_arith);
                assert(((i + 1) as int) * 0x1_0000_0000 <= 0xffff_ffff_ffff_ffff
                    * 0x1_0000_0000) by (nonlinear_arith)
                    requires
                        0 <= i,
                        (i + 1) as int <= 0xffff_ffff_ffff_ffff,
                ;
            }
            total = total + (x as u128);
            i = i + 1;
        }
        Some(total)
    }
}

} // verus!
