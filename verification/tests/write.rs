use swg::compression::CompressionMethod;
use swg::write::{TreWriter, TreWriterOptions};

#[test]
fn tre_uncompressed_empty_write() {
    let expected = vec![
        // Header
        0x45, 0x45, 0x52, 0x54, 0x35, 0x30, 0x30, 0x30,
        0x00, 0x00, 0x00, 0x00,
        0x24, 0x00, 0x00, 0x00,
        0x00, 0x00, 0x00, 0x00,
        0x00, 0x00, 0x00, 0x00,
        0x00, 0x00, 0x00, 0x00,
        0x00, 0x00, 0x00, 0x00,
        0x00, 0x00, 0x00, 0x00,
    ];

    let writer = TreWriter::new(TreWriterOptions::new(
        CompressionMethod::Raw,
        CompressionMethod::Raw,
    ));
    let result = writer.finish().unwrap();
    assert_eq!(result.len(), expected.len());
    assert_eq!(format!("{:02X?}", result), format!("{:02X?}", expected));
}

#[test]
fn tre_compressed_empty_write() {
    let expected = vec![
        // Header
        0x45, 0x45, 0x52, 0x54, 0x35, 0x30, 0x30, 0x30,
        0x00, 0x00, 0x00, 0x00,
        0x24, 0x00, 0x00, 0x00,
        0x02, 0x00, 0x00, 0x00,
        0x08, 0x00, 0x00, 0x00,
        0x02, 0x00, 0x00, 0x00,
        0x08, 0x00, 0x00, 0x00,
        0x00, 0x00, 0x00, 0x00,
        // Records
        0x78, 0x9C, 0x03, 0x00, 0x00, 0x00, 0x00, 0x01,
        // Names
        0x78, 0x9C, 0x03, 0x00, 0x00, 0x00, 0x00, 0x01,
    ];

    let writer = TreWriter::new(TreWriterOptions::new(
        CompressionMethod::Zlib,
        CompressionMethod::Zlib,
    ));
    let result = writer.finish().unwrap();
    assert_eq!(result.len(), expected.len());
    assert_eq!(format!("{:02X?}", result), format!("{:02X?}", expected));
}

#[test]
fn tre_uncompressed_without_data_write() {
    let expected = [
        // Header
        0x45, 0x45, 0x52, 0x54, 0x35, 0x30, 0x30, 0x30,
        0x01, 0x00, 0x00, 0x00,
        0x24, 0x00, 0x00, 0x00,
        0x00, 0x00, 0x00, 0x00,
        0x18, 0x00, 0x00, 0x00,
        0x00, 0x00, 0x00, 0x00,
        0x0A, 0x00, 0x00, 0x00,
        0x0A, 0x00, 0x00, 0x00,
        // Records
        0xAA, 0x30, 0x7E, 0x52,
        0x00, 0x00, 0x00, 0x00,
        0x24, 0x00, 0x00, 0x00,
        0x00, 0x00, 0x00, 0x00,
        0x00, 0x00, 0x00, 0x00,
        0x00, 0x00, 0x00, 0x00,
        // Names
        0x68, 0x65, 0x6C, 0x6C, 0x6F, 0x2E, 0x74, 0x78, 0x74, 0x00,
        // Hashes
        0xD4, 0x1D, 0x8C, 0xD9, 0x8F, 0x00, 0xB2, 0x04, 0xE9, 0x80, 0x09, 0x98, 0xEC, 0xF8, 0x42, 0x7E,
    ];

    let mut writer = TreWriter::new(TreWriterOptions::new(
        CompressionMethod::Raw,
        CompressionMethod::Raw,
    ));
    writer.start_file("hello.txt", CompressionMethod::Raw).unwrap();

    let result = writer.finish().unwrap();
    assert_eq!(result.len(), expected.len());
    assert_eq!(format!("{:02X?}", result), format!("{:02X?}", expected));
}

#[test]
fn tre_uncompressed_multiple_entries_without_data_write() {
    let expected = [
        // Header
        0x45, 0x45, 0x52, 0x54, 0x35, 0x30, 0x30, 0x30,
        0x02, 0x00, 0x00, 0x00,
        0x24, 0x00, 0x00, 0x00,
        0x00, 0x00, 0x00, 0x00,
        0x30, 0x00, 0x00, 0x00,
        0x00, 0x00, 0x00, 0x00,
        0x14, 0x00, 0x00, 0x00,
        0x14, 0x00, 0x00, 0x00,
        // Records
        0xAA, 0x30, 0x7E, 0x52,
        0x00, 0x00, 0x00, 0x00,
        0x24, 0x00, 0x00, 0x00,
        0x00, 0x00, 0x00, 0x00,
        0x00, 0x00, 0x00, 0x00,
        0x00, 0x00, 0x00, 0x00,

        0xDE, 0x6E, 0xB0, 0xD8,
        0x00, 0x00, 0x00, 0x00,
        0x24, 0x00, 0x00, 0x00,
        0x00, 0x00, 0x00, 0x00,
        0x00, 0x00, 0x00, 0x00,
        0x0A, 0x00, 0x00, 0x00,
        // Names
        0x68, 0x65, 0x6C, 0x6C, 0x6F, 0x2E, 0x74, 0x78, 0x74, 0x00,
        0x77, 0x6F, 0x72, 0x6C, 0x64, 0x2E, 0x74, 0x78, 0x74, 0x00,
        // Hashes
        0xD4, 0x1D, 0x8C, 0xD9, 0x8F, 0x00, 0xB2, 0x04, 0xE9, 0x80, 0x09, 0x98, 0xEC, 0xF8, 0x42, 0x7E,
        0xD4, 0x1D, 0x8C, 0xD9, 0x8F, 0x00, 0xB2, 0x04, 0xE9, 0x80, 0x09, 0x98, 0xEC, 0xF8, 0x42, 0x7E,
    ];

    let mut writer = TreWriter::new(TreWriterOptions::new(
        CompressionMethod::Raw,
        CompressionMethod::Raw,
    ));
    writer.start_file("hello.txt", CompressionMethod::Raw).unwrap();
    writer.finish_file().unwrap();

    writer.start_file("world.txt", CompressionMethod::Raw).unwrap();

    let result = writer.finish().unwrap();
    assert_eq!(result.len(), expected.len());
    assert_eq!(format!("{:02X?}", result), format!("{:02X?}", expected));
}

#[test]
fn tre_compressed_without_data_write() {
    let expected = [
        // Header
        0x45, 0x45, 0x52, 0x54, 0x35, 0x30, 0x30, 0x30,
        0x01, 0x00, 0x00, 0x00,
        0x2C, 0x00, 0x00, 0x00,
        0x00, 0x00, 0x00, 0x00,
        0x18, 0x00, 0x00, 0x00,
        0x02, 0x00, 0x00, 0x00,
        0x12, 0x00, 0x00, 0x00,
        0x0A, 0x00, 0x00, 0x00,
        // Data
        0x78, 0x9C,
        0x03, 0x00, 0x00, 0x00, 0x00, 0x01,
        // Records
        0xAA, 0x30, 0x7E, 0x52,
        0x00, 0x00, 0x00, 0x00,
        0x24, 0x00, 0x00, 0x00,
        0x02, 0x00, 0x00, 0x00,
        0x08, 0x00, 0x00, 0x00,
        0x00, 0x00, 0x00, 0x00,
        // Names
        0x78, 0x9C,
        0xCB, 0x48, 0xCD, 0xC9, 0xC9, 0xD7, 0x2B, 0xA9, 0x28, 0x61, 0x00, 0x00,
        0x15, 0x9B, 0x03, 0xA3,
        // Hashes
        0xFB, 0x0F, 0xC3, 0xAB, 0x8C, 0x05, 0x01, 0x79, 0xA3, 0x78, 0xDC, 0xB1, 0x03, 0x68, 0xAC, 0xF6,
    ];

    let mut writer = TreWriter::new(TreWriterOptions::new(
        CompressionMethod::Raw,
        CompressionMethod::Zlib,
    ));
    writer.start_file("hello.txt", CompressionMethod::Zlib).unwrap();

    let result = writer.finish().unwrap();
    assert_eq!(result.len(), expected.len());
    assert_eq!(format!("{:02X?}", result), format!("{:02X?}", expected));
}

#[test]
fn tre_compressed_multiple_entries_without_data_write() {
    let expected = [
        // Header
        0x45, 0x45, 0x52, 0x54, 0x35, 0x30, 0x30, 0x30,
        0x02, 0x00, 0x00, 0x00,
        0x34, 0x00, 0x00, 0x00,
        0x00, 0x00, 0x00, 0x00,
        0x30, 0x00, 0x00, 0x00,
        0x02, 0x00, 0x00, 0x00,
        0x18, 0x00, 0x00, 0x00,
        0x14, 0x00, 0x00, 0x00,
        // Data
        0x78, 0x9C,
        0x03, 0x00, 0x00, 0x00, 0x00, 0x01,

        0x78, 0x9C,
        0x03, 0x00, 0x00, 0x00, 0x00, 0x01,
        // Records
        0xAA, 0x30, 0x7E, 0x52,
        0x00, 0x00, 0x00, 0x00,
        0x24, 0x00, 0x00, 0x00,
        0x02, 0x00, 0x00, 0x00,
        0x08, 0x00, 0x00, 0x00,
        0x00, 0x00, 0x00, 0x00,

        0xDE, 0x6E, 0xB0, 0xD8,
        0x00, 0x00, 0x00, 0x00,
        0x2C, 0x00, 0x00, 0x00,
        0x02, 0x00, 0x00, 0x00,
        0x08, 0x00, 0x00, 0x00,
        0x0A, 0x00, 0x00, 0x00,
        // Names
        0x78, 0x9C,
        0xCB, 0x48, 0xCD, 0xC9, 0xC9, 0xD7, 0x2B, 0xA9, 0x28, 0x61, 0x28, 0xCF, 0x2F, 0xCA, 0x49, 0x01, 0xB3, 0x00,
        0x50, 0x68, 0x07, 0x59,
        // Hashes
        0xFB, 0x0F, 0xC3, 0xAB, 0x8C, 0x05, 0x01, 0x79, 0xA3, 0x78, 0xDC, 0xB1, 0x03, 0x68, 0xAC, 0xF6,
        0xFB, 0x0F, 0xC3, 0xAB, 0x8C, 0x05, 0x01, 0x79, 0xA3, 0x78, 0xDC, 0xB1, 0x03, 0x68, 0xAC, 0xF6,
    ];

    let mut writer = TreWriter::new(TreWriterOptions::new(
        CompressionMethod::Raw,
        CompressionMethod::Zlib,
    ));
    writer.start_file("hello.txt", CompressionMethod::Zlib).unwrap();
    writer.finish_file().unwrap();

    writer.start_file("world.txt", CompressionMethod::Zlib).unwrap();

    let result = writer.finish().unwrap();
    assert_eq!(format!("{:02X?}", result), format!("{:02X?}", expected));
}

#[test]
fn tre_uncompressed_with_data_write() {
    let file_data = [
        0x48, 0x65, 0x6C, 0x6C, 0x6F, 0x20, 0x57, 0x6F, 0x72, 0x6C, 0x64,
    ];

    let expected = [
        // Header
        0x45, 0x45, 0x52, 0x54, 0x35, 0x30, 0x30, 0x30,
        0x01, 0x00, 0x00, 0x00,
        0x2F, 0x00, 0x00, 0x00,
        0x00, 0x00, 0x00, 0x00,
        0x18, 0x00, 0x00, 0x00,
        0x00, 0x00, 0x00, 0x00,
        0x0A, 0x00, 0x00, 0x00,
        0x0A, 0x00, 0x00, 0x00,
        // Data
        0x48, 0x65, 0x6C, 0x6C, 0x6F, 0x20, 0x57, 0x6F, 0x72, 0x6C, 0x64,
        // Records
        0xAA, 0x30, 0x7E, 0x52,
        0x0B, 0x00, 0x00, 0x00,
        0x24, 0x00, 0x00, 0x00,
        0x00, 0x00, 0x00, 0x00,
        0x0B, 0x00, 0x00, 0x00,
        0x00, 0x00, 0x00, 0x00,
        // Names
        0x68, 0x65, 0x6C, 0x6C, 0x6F, 0x2E, 0x74, 0x78, 0x74, 0x00,
        // Hashes
        0xB1, 0x0A, 0x8D, 0xB1, 0x64, 0xE0, 0x75, 0x41, 0x05, 0xB7, 0xA9, 0x9B, 0xE7, 0x2E, 0x3F, 0xE5,
    ];

    let mut writer = TreWriter::new(TreWriterOptions::new(
        CompressionMethod::Raw,
        CompressionMethod::Raw,
    ));
    writer.start_file("hello.txt", CompressionMethod::Raw).unwrap();
    writer.write_all(&file_data).unwrap();

    let result = writer.finish().unwrap();
    assert_eq!(result.len(), expected.len());
    assert_eq!(format!("{:02X?}", result), format!("{:02X?}", expected));
}

#[test]
fn tre_uncompressed_multiple_entries_with_data_write() {
    let hello_data = [
        0x48, 0x65, 0x6C, 0x6C, 0x6F, 0x20, 0x57, 0x6F, 0x72, 0x6C, 0x64,
    ];

    let world_data = [
        0x57, 0x6F, 0x72, 0x6C, 0x64, 0x20, 0x48, 0x65, 0x6C, 0x6C, 0x6F,
    ];

    let expected = [
        // Header
        0x45, 0x45, 0x52, 0x54, 0x35, 0x30, 0x30, 0x30,
        0x02, 0x00, 0x00, 0x00,
        0x3A, 0x00, 0x00, 0x00,
        0x00, 0x00, 0x00, 0x00,
        0x30, 0x00, 0x00, 0x00,
        0x00, 0x00, 0x00, 0x00,
        0x14, 0x00, 0x00, 0x00,
        0x14, 0x00, 0x00, 0x00,
        // Data
        0x48, 0x65, 0x6C, 0x6C, 0x6F, 0x20, 0x57, 0x6F, 0x72, 0x6C, 0x64,
        0x57, 0x6F, 0x72, 0x6C, 0x64, 0x20, 0x48, 0x65, 0x6C, 0x6C, 0x6F,
        // Records
        0xAA, 0x30, 0x7E, 0x52,
        0x0B, 0x00, 0x00, 0x00,
        0x24, 0x00, 0x00, 0x00,
        0x00, 0x00, 0x00, 0x00,
        0x0B, 0x00, 0x00, 0x00,
        0x00, 0x00, 0x00, 0x00,

        0xDE, 0x6E, 0xB0, 0xD8,
        0x0B, 0x00, 0x00, 0x00,
        0x2F, 0x00, 0x00, 0x00,
        0x00, 0x00, 0x00, 0x00,
        0x0B, 0x00, 0x00, 0x00,
        0x0A, 0x00, 0x00, 0x00,
        // Names
        0x68, 0x65, 0x6C, 0x6C, 0x6F, 0x2E, 0x74, 0x78, 0x74, 0x00,
        0x77, 0x6F, 0x72, 0x6C, 0x64, 0x2E, 0x74, 0x78, 0x74, 0x00,
        // Hashes
        0xB1, 0x0A, 0x8D, 0xB1, 0x64, 0xE0, 0x75, 0x41, 0x05, 0xB7, 0xA9, 0x9B, 0xE7, 0x2E, 0x3F, 0xE5,
        0x9F, 0xEF, 0x1D, 0xFD, 0x8F, 0xA4, 0x1F, 0x7A, 0xD0, 0x4D, 0x76, 0x0C, 0x77, 0xDE, 0xAB, 0x39,
    ];

    let mut writer = TreWriter::new(TreWriterOptions::new(
        CompressionMethod::Raw,
        CompressionMethod::Raw,
    ));
    writer.start_file("hello.txt", CompressionMethod::Raw).unwrap();
    writer.write_all(&hello_data).unwrap();
    writer.finish_file().unwrap();

    writer.start_file("world.txt", CompressionMethod::Raw).unwrap();
    writer.write_all(&world_data).unwrap();

    let result = writer.finish().unwrap();
    assert_eq!(result.len(), expected.len());
    assert_eq!(format!("{:02X?}", result), format!("{:02X?}", expected));
}

#[test]
fn tre_compressed_with_data_write() {
    let file_data = [
        0x48, 0x65, 0x6C, 0x6C, 0x6F, 0x20, 0x57, 0x6F, 0x72, 0x6C, 0x64,
    ];

    let expected = [
        // Header
        0x45, 0x45, 0x52, 0x54, 0x35, 0x30, 0x30, 0x30,
        0x01, 0x00, 0x00, 0x00,
        0x37, 0x00, 0x00, 0x00,
        0x00, 0x00, 0x00, 0x00,
        0x18, 0x00, 0x00, 0x00,
        0x00, 0x00, 0x00, 0x00,
        0x0A, 0x00, 0x00, 0x00,
        0x0A, 0x00, 0x00, 0x00,
        // Data
        0x78, 0x9C,
        0xF3, 0x48, 0xCD, 0xC9, 0xC9, 0x57, 0x08, 0xCF, 0x2F, 0xCA, 0x49, 0x01, 0x00, 0x18,
        0x0B, 0x04, 0x1D,
        // Records
        0xAA, 0x30, 0x7E, 0x52,
        0x0B, 0x00, 0x00, 0x00,
        0x24, 0x00, 0x00, 0x00,
        0x02, 0x00, 0x00, 0x00,
        0x13, 0x00, 0x00, 0x00,
        0x00, 0x00, 0x00, 0x00,
        // Names
        0x68, 0x65, 0x6C, 0x6C, 0x6F, 0x2E, 0x74, 0x78, 0x74, 0x00,
        // Hashes
        0xED, 0xCF, 0xD4, 0xB0, 0xFA, 0x56, 0xDA, 0x3B, 0x9C, 0x65, 0x20, 0xFB, 0x8B, 0x79, 0x75, 0x61,
    ];

    let mut writer = TreWriter::new(TreWriterOptions::new(
        CompressionMethod::Raw,
        CompressionMethod::Raw,
    ));
    writer.start_file("hello.txt", CompressionMethod::Zlib).unwrap();
    writer.write_all(&file_data).unwrap();

    let result = writer.finish().unwrap();
    assert_eq!(result.len(), expected.len());
    assert_eq!(format!("{:02X?}", result), format!("{:02X?}", expected));
}

#[test]
fn tre_compressed_multiple_entries_with_data_write() {
    let hello_data = [
        0x48, 0x65, 0x6C, 0x6C, 0x6F, 0x20, 0x57, 0x6F, 0x72, 0x6C, 0x64,
    ];

    let world_data = [
        0x57, 0x6F, 0x72, 0x6C, 0x64, 0x20, 0x48, 0x65, 0x6C, 0x6C, 0x6F,
    ];

    let expected = [
        // Header
        0x45, 0x45, 0x52, 0x54, 0x35, 0x30, 0x30, 0x30,
        0x02, 0x00, 0x00, 0x00,
        0x4A, 0x00, 0x00, 0x00,
        0x00, 0x00, 0x00, 0x00,
        0x30, 0x00, 0x00, 0x00,
        0x00, 0x00, 0x00, 0x00,
        0x14, 0x00, 0x00, 0x00,
        0x14, 0x00, 0x00, 0x00,
        // Data
        0x78, 0x9C,
        0xF3, 0x48, 0xCD, 0xC9, 0xC9, 0x57, 0x08, 0xCF, 0x2F, 0xCA, 0x49, 0x01, 0x00,
        0x18, 0x0B, 0x04, 0x1D,

        0x78, 0x9C,
        0x0B, 0xCF, 0x2F, 0xCA, 0x49, 0x51, 0xF0, 0x48, 0xCD, 0xC9, 0xC9, 0x07, 0x00,
        0x18, 0x83, 0x04, 0x1D,
        // Records
        0xAA, 0x30, 0x7E, 0x52,
        0x0B, 0x00, 0x00, 0x00,
        0x24, 0x00, 0x00, 0x00,
        0x02, 0x00, 0x00, 0x00,
        0x13, 0x00, 0x00, 0x00,
        0x00, 0x00, 0x00, 0x00,

        0xDE, 0x6E, 0xB0, 0xD8,
        0x0B, 0x00, 0x00, 0x00,
        0x37, 0x00, 0x00, 0x00,
        0x02, 0x00, 0x00, 0x00,
        0x13, 0x00, 0x00, 0x00,
        0x0A, 0x00, 0x00, 0x00,
        // Names
        0x68, 0x65, 0x6C, 0x6C, 0x6F, 0x2E, 0x74, 0x78, 0x74, 0x00,
        0x77, 0x6F, 0x72, 0x6C, 0x64, 0x2E, 0x74, 0x78, 0x74, 0x00,
        // Hashes
        0xED, 0xCF, 0xD4, 0xB0, 0xFA, 0x56, 0xDA, 0x3B, 0x9C, 0x65, 0x20, 0xFB, 0x8B, 0x79, 0x75, 0x61,
        0xA6, 0x09, 0xD4, 0xBD, 0x27, 0x11, 0x25, 0x4F, 0x25, 0xFC, 0x50, 0xDF, 0x17, 0x0F, 0x2C, 0x70,
    ];

    let mut writer = TreWriter::new(TreWriterOptions::new(
        CompressionMethod::Raw,
        CompressionMethod::Raw,
    ));
    writer.start_file("hello.txt", CompressionMethod::Zlib).unwrap();
    writer.write_all(&hello_data).unwrap();
    writer.finish_file().unwrap();

    writer.start_file("world.txt", CompressionMethod::Zlib).unwrap();
    writer.write_all(&world_data).unwrap();

    let result = writer.finish().unwrap();
    assert_eq!(result.len(), expected.len());
    assert_eq!(format!("{:02X?}", result), format!("{:02X?}", expected));
}
