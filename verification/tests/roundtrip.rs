use md5::Digest;
use swg::compression::CompressionMethod;
use swg::read::TreArchive;
use swg::types::{TreHeader, TreRecord};
use swg::write::{TreWriter, TreWriterOptions};

fn write_two_entries(method: CompressionMethod) -> Vec<u8> {
    let mut writer = TreWriter::new(TreWriterOptions::new(method, method));
    writer.start_file("hello.txt", method).unwrap();
    writer.write_all(b"Hello World").unwrap();
    writer.start_file("world.txt", method).unwrap();
    writer.write_all(b"World Hello").unwrap();
    writer.finish().unwrap()
}

#[test]
fn write_read_round_trip() {
    for method in [CompressionMethod::Raw, CompressionMethod::Zlib] {
        let bytes = write_two_entries(method);
        let archive = TreArchive::new(bytes).unwrap();

        assert_eq!(archive.len(), 2);
        assert_eq!(
            archive.file_names(),
            vec!["hello.txt".to_owned(), "world.txt".to_owned()]
        );

        let first = archive.by_index(0).unwrap();
        assert_eq!(first.name(), "hello.txt");
        assert_eq!(first.size(), 11);
        assert_eq!(
            first.crc32(),
            crc::Crc::<u32>::new(&crc::CRC_32_BZIP2).checksum(b"hello.txt")
        );
        assert_eq!(first.data().as_slice(), b"Hello World");

        let second = archive.by_index(1).unwrap();
        assert_eq!(second.name(), "world.txt");
        assert_eq!(second.data().as_slice(), b"World Hello");
    }
}

#[test]
fn lookup_equivalence() {
    let bytes = write_two_entries(CompressionMethod::Zlib);
    let archive = TreArchive::new(bytes).unwrap();

    let index = archive.index_for_name("world.txt").unwrap();
    assert_eq!(index, 1);
    assert_eq!(archive.name_for_index(1), Some("world.txt"));

    let by_name = archive.by_name("world.txt").unwrap();
    let by_index = archive.by_index(index).unwrap();
    assert_eq!(by_name.name(), by_index.name());
    assert_eq!(by_name.name_raw(), by_index.name_raw());
    assert_eq!(by_name.size(), by_index.size());
    assert_eq!(by_name.crc32(), by_index.crc32());
    assert_eq!(by_name.data_start(), by_index.data_start());
    assert_eq!(by_name.data(), by_index.data());

    assert!(archive.index_for_name("missing.txt").is_none());
    assert!(archive.by_name("missing.txt").is_err());
    assert!(archive.by_index(2).is_err());
}

#[test]
fn offset_invariant() {
    // record_start = 36 + sum of stored sizes; each record's offset is
    // 36 plus the stored sizes of the records before it
    let bytes = write_two_entries(CompressionMethod::Zlib);
    let header = TreHeader::parse(&bytes).unwrap();

    let region = &bytes[header.record_start as usize
        ..(header.record_start + header.record_compressed) as usize];
    let mut dec = flate2::read::ZlibDecoder::new(region);
    let mut plain = Vec::new();
    std::io::Read::read_to_end(&mut dec, &mut plain).unwrap();

    let first = TreRecord::parse_at(&plain, 0).unwrap();
    let second = TreRecord::parse_at(&plain, 24).unwrap();

    assert_eq!(first.data_offset, 36);
    assert_eq!(second.data_offset, 36 + first.data_compressed);
    assert_eq!(
        header.record_start,
        36 + first.data_compressed + second.data_compressed
    );
}

#[test]
fn crc_of_names() {
    let bytes = write_two_entries(CompressionMethod::Raw);
    let header = TreHeader::parse(&bytes).unwrap();
    let rec_base = header.record_start as usize;
    let first = TreRecord::parse_at(&bytes, rec_base).unwrap();
    let second = TreRecord::parse_at(&bytes, rec_base + 24).unwrap();
    let crc = crc::Crc::<u32>::new(&crc::CRC_32_BZIP2);
    assert_eq!(first.checksum, crc.checksum(b"hello.txt"));
    assert_eq!(second.checksum, crc.checksum(b"world.txt"));
}

#[test]
fn hash_trailer() {
    // the trailer holds the MD5 digest of each entry's stored bytes
    let bytes = write_two_entries(CompressionMethod::Raw);
    let header = TreHeader::parse(&bytes).unwrap();
    let rec_base = header.record_start as usize;
    let first = TreRecord::parse_at(&bytes, rec_base).unwrap();
    let second = TreRecord::parse_at(&bytes, rec_base + 24).unwrap();

    let trailer_start = (header.record_start + header.record_compressed
        + header.name_compressed) as usize;
    let trailer = &bytes[trailer_start..];
    assert_eq!(trailer.len(), 32);

    for (i, rec) in [first, second].iter().enumerate() {
        let stored = &bytes
            [rec.data_offset as usize..(rec.data_offset + rec.data_compressed) as usize];
        let mut hasher = md5::Md5::new();
        hasher.update(stored);
        let digest = hasher.finalize();
        assert_eq!(&trailer[16 * i..16 * i + 16], digest.as_slice());
    }
}

#[test]
fn total_decompressed_size() {
    let bytes = write_two_entries(CompressionMethod::Zlib);
    let archive = TreArchive::new(bytes).unwrap();
    assert_eq!(archive.decompressed_size(), Some(22));
    assert_eq!(archive.get_record_compression(), CompressionMethod::Zlib);
    assert_eq!(archive.get_name_compression(), CompressionMethod::Zlib);
    assert!(archive.get_record_block_size() > 0);
    assert!(archive.get_name_block_size() > 0);
}

#[test]
fn lossy_name_decoding() {
    // an entry name that is not valid UTF-8 keeps its raw bytes and shows
    // a replacement character in the decoded name
    let mut bytes = Vec::new();
    bytes.extend_from_slice(b"EERT5000");
    for field in [1u32, 0x26, 0, 24, 0, 3, 3] {
        bytes.extend_from_slice(&field.to_le_bytes());
    }
    bytes.extend_from_slice(b"hi"); // data (2 bytes at offset 36)
    for field in [0u32, 2, 36, 0, 2, 0] {
        bytes.extend_from_slice(&field.to_le_bytes());
    }
    bytes.extend_from_slice(&[0xFF, 0x41, 0x00]); // name: invalid byte + 'A'

    let archive = TreArchive::new(bytes).unwrap();
    let file = archive.by_index(0).unwrap();
    assert_eq!(file.name_raw(), &[0xFF, 0x41]);
    assert_eq!(file.name(), "\u{FFFD}A");
    assert_eq!(file.data().as_slice(), b"hi");
}
