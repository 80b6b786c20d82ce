//! The fixed little-endian structures of a TRE file: the 36-byte header and
//! the 24-byte per-entry record, with their byte-level codecs.

use vstd::prelude::*;

use crate::compression::CompressionMethod;

verus! {

/// The eight magic bytes at the start of every archive: "TREE" plus the
/// version "0005", stored as `EERT5000`.
pub open spec fn spec_magic() -> Seq<u8> {
    seq![0x45u8, 0x45u8, 0x52u8, 0x54u8, 0x35u8, 0x30u8, 0x30u8, 0x30u8]
}

/// The four little-endian bytes of `x`.
pub open spec fn spec_le32(x: u32) -> Seq<u8> {
    seq![
        (x & 0xff) as u8,
        ((x >> 8) & 0xff) as u8,
        ((x >> 16) & 0xff) as u8,
        ((x >> 24) & 0xff) as u8,
    ]
}

/// The little-endian u32 read at offset `off` of `s`.
pub open spec fn spec_u32_at(s: Seq<u8>, off: int) -> u32
    recommends
        0 <= off,
        off + 4 <= s.len(),
{
    (s[off] as u32) | ((s[off + 1] as u32) << 8) | ((s[off + 2] as u32) << 16) | ((s[off + 3]
        as u32) << 24)
}

/// Reassembling the four little-endian bytes of `x` gives back `x`.
pub proof fn lemma_u32_le_roundtrip(s: Seq<u8>, off: int, x: u32)
    requires
        0 <= off,
        off + 4 <= s.len(),
        s[off] == spec_le32(x)[0],
        s[off + 1] == spec_le32(x)[1],
        s[off + 2] == spec_le32(x)[2],
        s[off + 3] == spec_le32(x)[3],
    ensures
        spec_u32_at(s, off) == x,
{
    assert(spec_le32(x)[0] == (x & 0xff) as u8);
    assert(spec_le32(x)[1] == ((x >> 8) & 0xff) as u8);
    assert(spec_le32(x)[2] == ((x >> 16) & 0xff) as u8);
    assert(spec_le32(x)[3] == ((x >> 24) & 0xff) as u8);
    assert(((x & 0xff) as u8 as u32) | (((x >> 8) & 0xff) as u8 as u32) << 8 | (((x >> 16)
        & 0xff) as u8 as u32) << 16 | (((x >> 24) & 0xff) as u8 as u32) << 24 == x)
        by (bit_vector);
}

/// Appends the four little-endian bytes of `x`.
pub fn push_u32_le(out: &mut Vec<u8>, x: u32)
    ensures
        final(out)@ == old(out)@ + spec_le32(x),
{
    proof {
        assert((x & 0xff) < 256 && ((x >> 8) & 0xff) < 256 && ((x >> 16) & 0xff) < 256 && ((x
            >> 24) & 0xff) < 256) by (bit_vector);
    }
    out.push((x & 0xff) as u8);
    out.push(((x >> 8) & 0xff) as u8);
    out.push(((x >> 16) & 0xff) as u8);
    out.push(((x >> 24) & 0xff) as u8);
    proof {
        assert(out@ =~= old(out)@ + spec_le32(x));
    }
}

/// The little-endian u16 read at offset `off` of `s`.
pub open spec fn spec_u16_at(s: Seq<u8>, off: int) -> u16
    recommends
        0 <= off,
        off + 2 <= s.len(),
{
    (s[off] as u16) | ((s[off + 1] as u16) << 8)
}

/// Reads the little-endian u16 at offset `off`.
pub fn read_u16_le(s: &[u8], off: usize) -> (x: u16)
    requires
        off + 2 <= s@.len(),
    ensures
        x == spec_u16_at(s@, off as int),
{
    let b0 = s[off] as u16;
    let b1 = s[off + 1] as u16;
    b0 | (b1 << 8)
}

/// Appends all of `data`.
pub fn push_bytes(out: &mut Vec<u8>, data: &[u8])
    ensures
        final(out)@ == old(out)@ + data@,
{
    out.extend_from_slice(data);
    proof {
        assert(out@ =~= old(out)@ + data@);
    }
}

/// Reads the little-endian u32 at offset `off`.
pub fn read_u32_le(s: &[u8], off: usize) -> (x: u32)
    requires
        off + 4 <= s@.len(),
    ensures
        x == spec_u32_at(s@, off as int),
{
    let b0 = s[off] as u32;
    let b1 = s[off + 1] as u32;
    let b2 = s[off + 2] as u32;
    let b3 = s[off + 3] as u32;
    b0 | (b1 << 8) | (b2 << 16) | (b3 << 24)
}

/// TRE file header.
///
/// Thirty-six bytes at the start of the file: the magic, then seven
/// little-endian u32 fields.
#[derive(Debug, Copy, Clone, PartialEq, Eq, Structural)]
pub struct TreHeader {
    /// The number of records stored in the file.
    pub records: u32,
    /// The offset from the beginning of the file where the record metadata
    /// block starts.
    pub record_start: u32,
    /// The compression method of the record metadata block.
    pub record_compression: CompressionMethod,
    /// The on-disk size of the record metadata block.
    pub record_compressed: u32,
    /// The compression method of the name block.
    pub name_compression: CompressionMethod,
    /// The on-disk size of the name block.
    pub name_compressed: u32,
    /// The size of the name block before compression.
    pub name_uncompressed: u32,
}

impl Default for TreHeader {
    /// An empty archive's header: no records, the record block directly
    /// after the header, both blocks zlib-compressed.
    fn default() -> (h: TreHeader)
        ensures
            h == (TreHeader {
                records: 0,
                record_start: 36,
                record_compression: CompressionMethod::Zlib,
                record_compressed: 0,
                name_compression: CompressionMethod::Zlib,
                name_compressed: 0,
                name_uncompressed: 0,
            }),
    {
        TreHeader {
            records: 0,
            record_start: 36,
            record_compression: CompressionMethod::Zlib,
            record_compressed: 0,
            name_compression: CompressionMethod::Zlib,
            name_compressed: 0,
            name_uncompressed: 0,
        }
    }
}

impl TreHeader {
    /// The 36 bytes of this header on disk.
    pub open spec fn spec_encode(self) -> Seq<u8> {
        spec_magic() + spec_le32(self.records) + spec_le32(self.record_start) + spec_le32(
            self.record_compression.spec_tag(),
        ) + spec_le32(self.record_compressed) + spec_le32(self.name_compression.spec_tag())
            + spec_le32(self.name_compressed) + spec_le32(self.name_uncompressed)
    }

    /// The header at the start of `bytes`: `None` when the input is shorter
    /// than 36 bytes, the magic does not match exactly, or either
    /// compression tag is invalid.
    pub open spec fn spec_parse(bytes: Seq<u8>) -> Option<TreHeader> {
        if bytes.len() < 36 {
            None
        } else if bytes.subrange(0, 8) != spec_magic() {
            None
        } else {
            match (
                CompressionMethod::spec_from_tag(spec_u32_at(bytes, 16)),
                CompressionMethod::spec_from_tag(spec_u32_at(bytes, 24)),
            ) {
                (Some(rc), Some(nc)) => Some(
                    TreHeader {
                        records: spec_u32_at(bytes, 8),
                        record_start: spec_u32_at(bytes, 12),
                        record_compression: rc,
                        record_compressed: spec_u32_at(bytes, 20),
                        name_compression: nc,
                        name_compressed: spec_u32_at(bytes, 28),
                        name_uncompressed: spec_u32_at(bytes, 32),
                    },
                ),
                _ => None,
            }
        }
    }

    /// Serializes this header.
    pub fn to_bytes(&self) -> (r: Vec<u8>)
        ensures
            r@ == self.spec_encode(),
            r@.len() == 36,
    {
        let mut out: Vec<u8> = Vec::new();
        out.push(0x45);
        out.push(0x45);
        out.push(0x52);
        out.push(0x54);
        out.push(0x35);
        out.push(0x30);
        out.push(0x30);
        out.push(0x30);
        proof {
            assert(out@ =~= spec_magic());
        }
        push_u32_le(&mut out, self.records);
        push_u32_le(&mut out, self.record_start);
        push_u32_le(&mut out, self.record_compression.tag());
        push_u32_le(&mut out, self.record_compressed);
        push_u32_le(&mut out, self.name_compression.tag());
        push_u32_le(&mut out, self.name_compressed);
        push_u32_le(&mut out, self.name_uncompressed);
        proof {
            assert(out@ =~= self.spec_encode());
        }
        out
    }

    /// Parses the header at the start of `bytes`.
    pub fn parse(bytes: &[u8]) -> (r: Option<TreHeader>)
        ensures
            r == TreHeader::spec_parse(bytes@),
    {
        if bytes.len() < 36 {
            return None;
        }
        let magic_ok = bytes[0] == 0x45 && bytes[1] == 0x45 && bytes[2] == 0x52 && bytes[3]
            == 0x54 && bytes[4] == 0x35 && bytes[5] == 0x30 && bytes[6] == 0x30 && bytes[7]
            == 0x30;
        proof {
            if magic_ok {
                assert(bytes@.subrange(0, 8) =~= spec_magic());
            } else {
                if bytes@.subrange(0, 8) == spec_magic() {
                    assert(forall|k: int| 0 <= k < 8 ==> bytes@[k] == #[trigger] spec_magic()[k])
                        by {
                        assert(forall|k: int|
                            0 <= k < 8 ==> bytes@[k] == #[trigger] bytes@.subrange(0, 8)[k]);
                    }
                    assert(bytes@[0] == 0x45 && bytes@[1] == 0x45 && bytes@[2] == 0x52
                        && bytes@[3] == 0x54 && bytes@[4] == 0x35 && bytes@[5] == 0x30
                        && bytes@[6] == 0x30 && bytes@[7] == 0x30);
                }
            }
        }
        if !magic_ok {
            return None;
        }
        let rc = match CompressionMethod::from_tag(read_u32_le(bytes, 16)) {
            Some(m) => m,
            None => {
                return None;
            },
        };
        let nc = match CompressionMethod::from_tag(read_u32_le(bytes, 24)) {
            Some(m) => m,
            None => {
                return None;
            },
        };
        Some(
            TreHeader {
                records: read_u32_le(bytes, 8),
                record_start: read_u32_le(bytes, 12),
                record_compression: rc,
                record_compressed: read_u32_le(bytes, 20),
                name_compression: nc,
                name_compressed: read_u32_le(bytes, 28),
                name_uncompressed: read_u32_le(bytes, 32),
            },
        )
    }
}

/// Serializing a header and parsing it back yields the same header, also
/// when the 36 bytes stand at the front of a longer sequence.
pub proof fn lemma_header_roundtrip(bytes: Seq<u8>, h: TreHeader)
    requires
        bytes.len() >= 36,
        bytes.subrange(0, 36) == h.spec_encode(),
    ensures
        TreHeader::spec_parse(bytes) == Some(h),
{
    let e = h.spec_encode();
    assert(e.len() == 36);
    assert(forall|k: int| 0 <= k < 36 ==> bytes[k] == #[trigger] e[k]) by {
        assert(forall|k: int| 0 <= k < 36 ==> bytes[k] == #[trigger] bytes.subrange(0, 36)[k]);
    }
    assert(bytes.subrange(0, 8) =~= spec_magic()) by {
        assert(forall|k: int| 0 <= k < 8 ==> e[k] == #[trigger] spec_magic()[k]);
    }
    assert(forall|k: int| 0 <= k < 4 ==> e[8 + k] == #[trigger] spec_le32(h.records)[k]);
    assert(forall|k: int| 0 <= k < 4 ==> e[12 + k] == #[trigger] spec_le32(h.record_start)[k]);
    assert(forall|k: int|
        0 <= k < 4 ==> e[16 + k] == #[trigger] spec_le32(h.record_compression.spec_tag())[k]);
    assert(forall|k: int|
        0 <= k < 4 ==> e[20 + k] == #[trigger] spec_le32(h.record_compressed)[k]);
    assert(forall|k: int|
        0 <= k < 4 ==> e[24 + k] == #[trigger] spec_le32(h.name_compression.spec_tag())[k]);
    assert(forall|k: int| 0 <= k < 4 ==> e[28 + k] == #[trigger] spec_le32(h.name_compressed)[k]);
    assert(forall|k: int|
        0 <= k < 4 ==> e[32 + k] == #[trigger] spec_le32(h.name_uncompressed)[k]);
    lemma_u32_le_roundtrip(bytes, 8, h.records);
    lemma_u32_le_roundtrip(bytes, 12, h.record_start);
    lemma_u32_le_roundtrip(bytes, 16, h.record_compression.spec_tag());
    lemma_u32_le_roundtrip(bytes, 20, h.record_compressed);
    lemma_u32_le_roundtrip(bytes, 24, h.name_compression.spec_tag());
    lemma_u32_le_roundtrip(bytes, 28, h.name_compressed);
    lemma_u32_le_roundtrip(bytes, 32, h.name_uncompressed);
}

/// TRE file record: the metadata of one entry.
#[derive(Debug, Copy, Clone, PartialEq, Eq, Structural)]
pub struct TreRecord {
    /// The CRC-32/BZIP2 checksum of the entry's name bytes.
    pub checksum: u32,
    /// The size of the entry's data before compression.
    pub data_uncompressed: u32,
    /// The absolute file offset of the entry's data.
    pub data_offset: u32,
    /// The compression method of the entry's data.
    pub data_compression: CompressionMethod,
    /// The on-disk size of the entry's data.
    pub data_compressed: u32,
    /// The offset of the entry's name inside the uncompressed name block.
    pub name_offset: u32,
}

impl Default for TreRecord {
    /// All-zero fields with the default zlib data compression.
    fn default() -> (r: TreRecord)
        ensures
            r == (TreRecord {
                checksum: 0,
                data_uncompressed: 0,
                data_offset: 0,
                data_compression: CompressionMethod::Zlib,
                data_compressed: 0,
                name_offset: 0,
            }),
    {
        TreRecord {
            checksum: 0,
            data_uncompressed: 0,
            data_offset: 0,
            data_compression: CompressionMethod::Zlib,
            data_compressed: 0,
            name_offset: 0,
        }
    }
}

impl TreRecord {
    /// The 24 bytes of this record on disk.
    pub open spec fn spec_encode(self) -> Seq<u8> {
        spec_le32(self.checksum) + spec_le32(self.data_uncompressed) + spec_le32(self.data_offset)
            + spec_le32(self.data_compression.spec_tag()) + spec_le32(self.data_compressed)
            + spec_le32(self.name_offset)
    }

    /// The record at offset `off` of `bytes`; `None` exactly when its
    /// compression tag is invalid.
    pub open spec fn spec_parse_at(bytes: Seq<u8>, off: int) -> Option<TreRecord>
        recommends
            0 <= off,
            off + 24 <= bytes.len(),
    {
        match CompressionMethod::spec_from_tag(spec_u32_at(bytes, off + 12)) {
            Some(m) => Some(
                TreRecord {
                    checksum: spec_u32_at(bytes, off),
                    data_uncompressed: spec_u32_at(bytes, off + 4),
                    data_offset: spec_u32_at(bytes, off + 8),
                    data_compression: m,
                    data_compressed: spec_u32_at(bytes, off + 16),
                    name_offset: spec_u32_at(bytes, off + 20),
                },
            ),
            None => None,
        }
    }

    /// Serializes this record.
    pub fn to_bytes(&self) -> (r: Vec<u8>)
        ensures
            r@ == self.spec_encode(),
            r@.len() == 24,
    {
        let mut out: Vec<u8> = Vec::new();
        self.append_to(&mut out);
        proof {
            assert(out@ =~= self.spec_encode());
        }
        out
    }

    /// Appends the 24 bytes of this record.
    pub fn append_to(&self, out: &mut Vec<u8>)
        ensures
            final(out)@ == old(out)@ + self.spec_encode(),
    {
        push_u32_le(out, self.checksum);
        push_u32_le(out, self.data_uncompressed);
        push_u32_le(out, self.data_offset);
        push_u32_le(out, self.data_compression.tag());
        push_u32_le(out, self.data_compressed);
        push_u32_le(out, self.name_offset);
        proof {
            assert(out@ =~= old(out)@ + self.spec_encode());
        }
    }

    /// Parses the record at offset `off`.
    pub fn parse_at(bytes: &[u8], off: usize) -> (r: Option<TreRecord>)
        requires
            off + 24 <= bytes@.len(),
        ensures
            r == TreRecord::spec_parse_at(bytes@, off as int),
    {
        let n = bytes.len();
        proof {
            assert(off + 24 <= n);
        }
        let m = match CompressionMethod::from_tag(read_u32_le(bytes, off + 12)) {
            Some(m) => m,
            None => {
                return None;
            },
        };
        Some(
            TreRecord {
                checksum: read_u32_le(bytes, off),
                data_uncompressed: read_u32_le(bytes, off + 4),
                data_offset: read_u32_le(bytes, off + 8),
                data_compression: m,
                data_compressed: read_u32_le(bytes, off + 16),
                name_offset: read_u32_le(bytes, off + 20),
            },
        )
    }
}

/// Serializing a record and parsing it back at its offset yields the same
/// record.
pub proof fn lemma_record_roundtrip(bytes: Seq<u8>, off: int, r: TreRecord)
    requires
        0 <= off,
        off + 24 <= bytes.len(),
        bytes.subrange(off, off + 24) == r.spec_encode(),
    ensures
        TreRecord::spec_parse_at(bytes, off) == Some(r),
{
    let e = r.spec_encode();
    assert(e.len() == 24);
    assert(forall|k: int| 0 <= k < 24 ==> bytes[off + k] == #[trigger] e[k]) by {
        assert(forall|k: int|
            0 <= k < 24 ==> bytes[off + k] == #[trigger] bytes.subrange(off, off + 24)[k]);
    }
    assert(forall|k: int| 0 <= k < 4 ==> e[k] == #[trigger] spec_le32(r.checksum)[k]);
    assert(forall|k: int| 0 <= k < 4 ==> e[4 + k] == #[trigger] spec_le32(r.data_uncompressed)[k]);
    assert(forall|k: int| 0 <= k < 4 ==> e[8 + k] == #[trigger] spec_le32(r.data_offset)[k]);
    assert(forall|k: int|
        0 <= k < 4 ==> e[12 + k] == #[trigger] spec_le32(r.data_compression.spec_tag())[k]);
    assert(forall|k: int| 0 <= k < 4 ==> e[16 + k] == #[trigger] spec_le32(r.data_compressed)[k]);
    assert(forall|k: int| 0 <= k < 4 ==> e[20 + k] == #[trigger] spec_le32(r.name_offset)[k]);
    lemma_u32_le_roundtrip(bytes, off, r.checksum);
    lemma_u32_le_roundtrip(bytes, off + 4, r.data_uncompressed);
    lemma_u32_le_roundtrip(bytes, off + 8, r.data_offset);
    lemma_u32_le_roundtrip(bytes, off + 12, r.data_compression.spec_tag());
    lemma_u32_le_roundtrip(bytes, off + 16, r.data_compressed);
    lemma_u32_le_roundtrip(bytes, off + 20, r.name_offset);
}

} // verus!
