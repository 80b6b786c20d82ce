use swg::compression::CompressionMethod;
use swg::diff::{diff_archives, diff_string_tables, DiffMode};
use swg::read::TreArchive;
use swg::stf::StringTableReader;
use swg::write::{TreWriter, TreWriterOptions};

fn stf_payload(key: &str, value: &str) -> Vec<u8> {
    let mut out = Vec::new();
    out.extend_from_slice(&0x0000ABCDu32.to_le_bytes());
    out.push(0);
    out.extend_from_slice(&1u32.to_le_bytes());
    out.extend_from_slice(&1u32.to_le_bytes());
    out.extend_from_slice(&1u32.to_le_bytes());
    out.extend_from_slice(&0xFFFFFFFFu32.to_le_bytes());
    out.extend_from_slice(&(value.encode_utf16().count() as u32).to_le_bytes());
    for unit in value.encode_utf16() {
        out.extend_from_slice(&unit.to_le_bytes());
    }
    out.extend_from_slice(&1u32.to_le_bytes());
    out.extend_from_slice(&(key.len() as u32).to_le_bytes());
    out.extend_from_slice(key.as_bytes());
    out
}

fn archive_with(entries: &[(&str, &[u8])]) -> TreArchive {
    let mut writer = TreWriter::new(TreWriterOptions::new(
        CompressionMethod::Raw,
        CompressionMethod::Raw,
    ));
    for (name, data) in entries {
        writer.start_file(name, CompressionMethod::Raw).unwrap();
        writer.write_all(data).unwrap();
    }
    TreArchive::new(writer.finish().unwrap()).unwrap()
}

#[test]
fn diff_semantic_changes() {
    let left_stf = stf_payload("test", "testing");
    let right_stf = stf_payload("test", "changed!");
    let left = archive_with(&[("bar.txt", b"bar"), ("baz.stf", &left_stf)]);
    let right = archive_with(&[("baz.stf", &right_stf), ("foo.txt", b"foo")]);

    let d = diff_archives(&left, &right, DiffMode::Semantic).unwrap();
    assert!(d.entries.is_none()); // both hold two entries
    assert!(d.record_compression.is_none());
    assert_eq!(d.added, vec!["foo.txt".to_owned()]);
    assert_eq!(d.removed, vec!["bar.txt".to_owned()]);
    assert_eq!(d.modified.len(), 1);

    let fd = &d.modified[0];
    assert_eq!(fd.name, "baz.stf");
    assert_eq!(
        fd.size,
        Some((left_stf.len() as u64, right_stf.len() as u64))
    );
    let sd = fd.stf.as_ref().unwrap();
    assert!(sd.added.is_empty());
    assert!(sd.removed.is_empty());
    assert_eq!(sd.modified.len(), 1);
    assert_eq!(sd.modified[0].0, "test");
    assert!(sd.modified[0].1.is_empty()); // no inline diff in semantic mode
}

#[test]
fn diff_full_inline_context() {
    let left_stf = stf_payload("test", "testing");
    let right_stf = stf_payload("test", "changed!");
    let left = archive_with(&[("baz.stf", &left_stf)]);
    let right = archive_with(&[("baz.stf", &right_stf)]);

    let d = diff_archives(&left, &right, DiffMode::Full).unwrap();
    assert_eq!(d.modified.len(), 1);
    let sd = d.modified[0].stf.as_ref().unwrap();
    assert_eq!(sd.modified.len(), 1);
    let lines = &sd.modified[0].1;
    assert!(!lines.is_empty());
    // the line diff removes the old text and inserts the new one
    assert!(lines.iter().any(|(tag, text)| *tag == 2 && text.contains("testing")));
    assert!(lines.iter().any(|(tag, text)| *tag == 1 && text.contains("changed!")));
}

#[test]
fn diff_equal_archives() {
    let stf = stf_payload("test", "testing");
    let left = archive_with(&[("a.txt", b"same"), ("baz.stf", &stf)]);
    let right = archive_with(&[("a.txt", b"same"), ("baz.stf", &stf)]);

    let d = diff_archives(&left, &right, DiffMode::Full).unwrap();
    assert!(d.is_empty());
}

#[test]
fn diff_full_layout_fields() {
    let mut w1 = TreWriter::new(TreWriterOptions::new(
        CompressionMethod::Raw,
        CompressionMethod::Raw,
    ));
    w1.start_file("a.txt", CompressionMethod::Raw).unwrap();
    w1.write_all(b"data").unwrap();
    let left = TreArchive::new(w1.finish().unwrap()).unwrap();

    let mut w2 = TreWriter::new(TreWriterOptions::new(
        CompressionMethod::Zlib,
        CompressionMethod::Raw,
    ));
    w2.start_file("a.txt", CompressionMethod::Raw).unwrap();
    w2.write_all(b"data").unwrap();
    let right = TreArchive::new(w2.finish().unwrap()).unwrap();

    let semantic = diff_archives(&left, &right, DiffMode::Semantic).unwrap();
    assert!(semantic.record_compression.is_none());
    assert!(semantic.is_empty());

    let full = diff_archives(&left, &right, DiffMode::Full).unwrap();
    assert_eq!(full.record_compression, Some((0, 2)));
    assert!(full.record_block_size.is_some()); // raw vs zlib block lengths
}

#[test]
fn diff_is_deterministic() {
    let left_stf = stf_payload("test", "testing");
    let right_stf = stf_payload("test", "changed!");
    let left = archive_with(&[("bar.txt", b"bar"), ("baz.stf", &left_stf)]);
    let right = archive_with(&[("baz.stf", &right_stf), ("foo.txt", b"foo")]);

    let first = diff_archives(&left, &right, DiffMode::Full).unwrap();
    let second = diff_archives(&left, &right, DiffMode::Full).unwrap();
    assert_eq!(format!("{:?}", first), format!("{:?}", second));
}

#[test]
fn diff_string_tables_directly() {
    let left = StringTableReader::decode(&stf_payload("old", "value")).unwrap();
    let right = StringTableReader::decode(&stf_payload("new", "value")).unwrap();
    let sd = diff_string_tables(&left, &right, DiffMode::Semantic);
    assert_eq!(sd.added, vec![("new".to_owned(), "value".to_owned())]);
    assert_eq!(sd.removed, vec![("old".to_owned(), "value".to_owned())]);
    assert!(sd.modified.is_empty());
    assert!(!sd.is_empty());
}
