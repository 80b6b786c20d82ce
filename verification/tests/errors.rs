use swg::compression::CompressionMethod;
use swg::error::{Error, FileNotFoundError};
use swg::read::TreArchive;
use swg::write::{TreWriter, TreWriterOptions};

#[test]
fn not_found_variants() {
    let mut writer = TreWriter::new(TreWriterOptions::new(
        CompressionMethod::Raw,
        CompressionMethod::Raw,
    ));
    writer.start_file("only.txt", CompressionMethod::Raw).unwrap();
    let archive = TreArchive::new(writer.finish().unwrap()).unwrap();

    assert!(matches!(
        archive.by_index(5),
        Err(Error::FileNotFound(FileNotFoundError::Index(5)))
    ));
    match archive.by_name("missing.txt") {
        Err(Error::FileNotFound(FileNotFoundError::Name(n))) => assert_eq!(n, "missing.txt"),
        other => panic!("unexpected result: {other:?}"),
    }
}

#[test]
fn corrupt_payload_is_io_error() {
    // a record that claims zlib compression over bytes that are not a
    // zlib stream
    let mut bytes = Vec::new();
    bytes.extend_from_slice(b"EERT5000");
    for field in [1u32, 0x28, 0, 24, 0, 3, 3] {
        bytes.extend_from_slice(&field.to_le_bytes());
    }
    bytes.extend_from_slice(&[0x00, 0x01, 0x02, 0x03]); // not zlib
    for field in [0u32, 8, 36, 2, 4, 0] {
        bytes.extend_from_slice(&field.to_le_bytes());
    }
    bytes.extend_from_slice(b"zz\0");

    let archive = TreArchive::new(bytes).unwrap();
    assert!(matches!(archive.by_index(0), Err(Error::IOError(_))));
}

#[test]
fn nul_in_entry_name_is_rejected() {
    let mut writer = TreWriter::new(TreWriterOptions::new(
        CompressionMethod::Raw,
        CompressionMethod::Raw,
    ));
    assert!(matches!(
        writer.start_file("bad\0name", CompressionMethod::Raw),
        Err(Error::CustomError(_))
    ));
    // the writer is left unchanged and still usable
    assert!(!writer.is_writing_file());
    writer.start_file("good.txt", CompressionMethod::Raw).unwrap();
    let archive = TreArchive::new(writer.finish().unwrap()).unwrap();
    assert_eq!(archive.len(), 1);
}

#[test]
fn write_before_start_is_rejected() {
    let mut writer = TreWriter::new(TreWriterOptions::new(
        CompressionMethod::Raw,
        CompressionMethod::Raw,
    ));
    assert!(matches!(writer.write(b"data"), Err(Error::IOError(_))));
}
