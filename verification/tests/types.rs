use swg::compression::CompressionMethod;
use swg::types::{TreHeader, TreRecord};

#[test]
fn read_uncompressed_header() {
    let input = vec![
        0x45, 0x45, 0x52, 0x54, 0x35, 0x30, 0x30, 0x30,
        0x00, 0x00, 0x00, 0x00,
        0x24, 0x00, 0x00, 0x00,
        0x00, 0x00, 0x00, 0x00,
        0x00, 0x00, 0x00, 0x00,
        0x00, 0x00, 0x00, 0x00,
        0x00, 0x00, 0x00, 0x00,
        0x00, 0x00, 0x00, 0x00,
    ];

    let expected = TreHeader {
        record_start: 36,
        record_compression: CompressionMethod::Raw,
        name_compression: CompressionMethod::Raw,
        ..Default::default()
    };

    assert_eq!(TreHeader::parse(&input), Some(expected));
}

#[test]
fn read_compressed_header() {
    let input = vec![
        0x45, 0x45, 0x52, 0x54, 0x35, 0x30, 0x30, 0x30,
        0x00, 0x00, 0x00, 0x00,
        0x24, 0x00, 0x00, 0x00,
        0x02, 0x00, 0x00, 0x00,
        0x00, 0x00, 0x00, 0x00,
        0x02, 0x00, 0x00, 0x00,
        0x00, 0x00, 0x00, 0x00,
        0x00, 0x00, 0x00, 0x00,
    ];

    let expected = TreHeader {
        record_start: 36,
        record_compression: CompressionMethod::Zlib,
        name_compression: CompressionMethod::Zlib,
        ..Default::default()
    };

    assert_eq!(TreHeader::parse(&input), Some(expected));
}

#[test]
fn write_uncompressed_header() {
    let expected: Vec<u8> = vec![
        0x45, 0x45, 0x52, 0x54, 0x35, 0x30, 0x30, 0x30,
        0x00, 0x00, 0x00, 0x00,
        0x24, 0x00, 0x00, 0x00,
        0x00, 0x00, 0x00, 0x00,
        0x00, 0x00, 0x00, 0x00,
        0x00, 0x00, 0x00, 0x00,
        0x00, 0x00, 0x00, 0x00,
        0x00, 0x00, 0x00, 0x00,
    ];

    let header = TreHeader {
        record_start: 36,
        record_compression: CompressionMethod::Raw,
        name_compression: CompressionMethod::Raw,
        ..Default::default()
    };

    assert_eq!(header.to_bytes(), expected);
}

#[test]
fn write_compressed_header() {
    let expected: Vec<u8> = vec![
        0x45, 0x45, 0x52, 0x54, 0x35, 0x30, 0x30, 0x30,
        0x00, 0x00, 0x00, 0x00,
        0x24, 0x00, 0x00, 0x00,
        0x02, 0x00, 0x00, 0x00,
        0x00, 0x00, 0x00, 0x00,
        0x02, 0x00, 0x00, 0x00,
        0x00, 0x00, 0x00, 0x00,
        0x00, 0x00, 0x00, 0x00,
    ];

    let header = TreHeader {
        record_start: 36,
        record_compression: CompressionMethod::Zlib,
        name_compression: CompressionMethod::Zlib,
        ..Default::default()
    };

    assert_eq!(header.to_bytes(), expected);
}

#[test]
fn read_record() {
    let input = vec![
        0x00, 0x00, 0x00, 0x00,
        0x0B, 0x00, 0x00, 0x00,
        0x24, 0x00, 0x00, 0x00,
        0x00, 0x00, 0x00, 0x00,
        0x0B, 0x00, 0x00, 0x00,
        0x00, 0x00, 0x00, 0x00,
    ];

    let expected = TreRecord {
        data_uncompressed: 11,
        data_offset: 36,
        data_compression: CompressionMethod::Raw,
        data_compressed: 11,
        ..Default::default()
    };

    assert_eq!(TreRecord::parse_at(&input, 0), Some(expected));
}

#[test]
fn write_record() {
    let expected = vec![
        0x00, 0x00, 0x00, 0x00,
        0x0B, 0x00, 0x00, 0x00,
        0x24, 0x00, 0x00, 0x00,
        0x00, 0x00, 0x00, 0x00,
        0x0B, 0x00, 0x00, 0x00,
        0x00, 0x00, 0x00, 0x00,
    ];

    let record = TreRecord {
        data_uncompressed: 11,
        data_offset: 36,
        data_compression: CompressionMethod::Raw,
        data_compressed: 11,
        ..Default::default()
    };

    assert_eq!(record.to_bytes(), expected);
}
