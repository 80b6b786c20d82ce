//! Block storage: a contiguous byte region held either verbatim or
//! zlib-compressed, as selected by a [`CompressionMethod`] tag.

use vstd::prelude::*;

verus! {

/// Identifies the storage format used to compress a block inside a TRE file.
///
/// On disk the method is a little-endian 32-bit tag: `0` for verbatim
/// storage, `2` for zlib. Every other tag value is a parse error.
#[derive(Clone, Copy, Debug, PartialEq, Eq, Structural)]
pub enum CompressionMethod {
    /// Stores the data as it is (wire tag `0`).
    Raw,
    /// Compresses the data using zlib.
    Zlib,
}

impl CompressionMethod {
    /// The wire tag of this method.
    pub open spec fn spec_tag(self) -> u32 {
        match self {
            CompressionMethod::Raw => 0,
            CompressionMethod::Zlib => 2,
        }
    }

    /// The method a wire tag denotes, if any.
    pub open spec fn spec_from_tag(tag: u32) -> Option<CompressionMethod> {
        if tag == 0 {
            Some(CompressionMethod::Raw)
        } else if tag == 2 {
            Some(CompressionMethod::Zlib)
        } else {
            None
        }
    }

    /// The wire tag of this method.
    pub fn tag(self) -> (tag: u32)
        ensures
            tag == self.spec_tag(),
    {
        match self {
            CompressionMethod::Raw => 0,
            CompressionMethod::Zlib => 2,
        }
    }

    /// Decodes a wire tag; `None` for any tag other than `0` or `2`.
    pub fn from_tag(tag: u32) -> (m: Option<CompressionMethod>)
        ensures
            m == CompressionMethod::spec_from_tag(tag),
    {
        if tag == 0 {
            Some(CompressionMethod::Raw)
        } else if tag == 2 {
            Some(CompressionMethod::Zlib)
        } else {
            None
        }
    }
}

impl Default for CompressionMethod {
    /// Zlib is the default, as for archives shipped with the game.
    fn default() -> (m: CompressionMethod)
        ensures
            m == CompressionMethod::Zlib,
    {
        CompressionMethod::Zlib
    }
}

/// What zlib decompression yields on a stored byte sequence: `Some` with the
/// decoded bytes when the sequence begins with a well-formed zlib stream,
/// `None` when the decoder rejects it. Decoding is a pure function of the
/// stored bytes.
pub uninterp spec fn zlib_inflate(stored: Seq<u8>) -> Option<Seq<u8>>;

/// The zlib stream the encoder produces for the given bytes at the default
/// level: a function of the bytes alone for the fixed backend.
pub uninterp spec fn zlib_deflate_of(data: Seq<u8>) -> Seq<u8>;

/// Relies on flate2's `ZlibEncoder`: compressing at the default level is a
/// pure function of the input bytes and yields a stream that `ZlibDecoder`
/// decodes back to exactly those bytes. Writing to a `Vec`-backed encoder
/// cannot fail.
#[verifier::external_body]
fn zlib_compress(data: &[u8]) -> (r: Vec<u8>)
    ensures
        r@ == zlib_deflate_of(data@),
        zlib_inflate(r@) == Some(data@),
{
    let mut enc = flate2::write::ZlibEncoder::new(Vec::new(), flate2::Compression::default());
    std::io::Write::write_all(&mut enc, data).expect("writing to a Vec cannot fail");
    enc.finish().expect("writing to a Vec cannot fail")
}

/// Relies on flate2's `ZlibDecoder`: reading to the end decodes the zlib
/// stream at the start of the input and fails exactly on input the zlib
/// format rejects (surfaced by the decoder as an "invalid data" I/O error).
#[verifier::external_body]
fn zlib_decompress(stored: &[u8]) -> (r: Option<Vec<u8>>)
    ensures
        match r {
            Some(v) => zlib_inflate(stored@) == Some(v@),
            None => zlib_inflate(stored@) is None,
        },
{
    let mut dec = flate2::read::ZlibDecoder::new(stored);
    let mut out = Vec::new();
    match std::io::Read::read_to_end(&mut dec, &mut out) {
        Ok(_) => Some(out),
        Err(_) => None,
    }
}

/// The bytes a block reader yields from a stored region: the region itself
/// for verbatim storage, the inflated bytes for zlib.
pub open spec fn spec_load_block(stored: Seq<u8>, m: CompressionMethod) -> Option<Seq<u8>> {
    match m {
        CompressionMethod::Raw => Some(stored),
        CompressionMethod::Zlib => zlib_inflate(stored),
    }
}

/// Reads a stored block back into its logical bytes; `None` exactly when a
/// zlib-stored block is corrupt.
pub fn load_block(stored: &[u8], m: CompressionMethod) -> (r: Option<Vec<u8>>)
    ensures
        match r {
            Some(v) => spec_load_block(stored@, m) == Some(v@),
            None => spec_load_block(stored@, m) is None,
        },
{
    match m {
        CompressionMethod::Raw => Some(vstd::slice::slice_to_vec(stored)),
        CompressionMethod::Zlib => zlib_decompress(stored),
    }
}

/// The bytes a stored block occupies on disk: the data itself for verbatim
/// storage, its zlib stream for zlib.
pub open spec fn spec_store_block(data: Seq<u8>, m: CompressionMethod) -> Seq<u8> {
    match m {
        CompressionMethod::Raw => data,
        CompressionMethod::Zlib => zlib_deflate_of(data),
    }
}

/// Stores logical bytes as a block that [`load_block`] reads back unchanged.
pub fn store_block(data: &[u8], m: CompressionMethod) -> (r: Vec<u8>)
    ensures
        r@ == spec_store_block(data@, m),
        spec_load_block(r@, m) == Some(data@),
{
    match m {
        CompressionMethod::Raw => vstd::slice::slice_to_vec(data),
        CompressionMethod::Zlib => zlib_compress(data),
    }
}

} // verus!
