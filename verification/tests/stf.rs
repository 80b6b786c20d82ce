use swg::stf::{Error, StringTable, StringTableReader, StringTableVisitor};

fn push_u32(out: &mut Vec<u8>, x: u32) {
    out.extend_from_slice(&x.to_le_bytes());
}

fn single_entry_fixture() -> Vec<u8> {
    let mut out = Vec::new();
    push_u32(&mut out, 0x0000ABCD); // magic
    out.push(0); // flag
    push_u32(&mut out, 1); // next index
    push_u32(&mut out, 1); // count
    // value record: id, unknown, runes, UTF-16 data
    push_u32(&mut out, 1);
    push_u32(&mut out, 0xFFFFFFFF);
    push_u32(&mut out, 7);
    for unit in "testing".encode_utf16() {
        out.extend_from_slice(&unit.to_le_bytes());
    }
    // key record: id, runes, UTF-8 data
    push_u32(&mut out, 1);
    push_u32(&mut out, 4);
    out.extend_from_slice(b"test");
    out
}

#[test]
fn parse_stf_single_entry() {
    let stf = StringTableReader::decode(&single_entry_fixture()).unwrap();

    assert_eq!(stf.len(), 1);

    let first_entry = stf.by_id("test");
    assert!(first_entry.is_some());

    let expected: Vec<u16> = "testing".encode_utf16().collect();
    assert_eq!(first_entry.unwrap(), &expected);
}

#[test]
fn stf_invalid_magic() {
    let mut bytes = single_entry_fixture();
    bytes[0] = 0x00;
    assert!(matches!(
        StringTableReader::decode(&bytes),
        Err(Error::InvalidFile)
    ));
}

#[test]
fn stf_truncated() {
    let bytes = single_entry_fixture();
    let cut = &bytes[..bytes.len() - 2];
    assert!(matches!(
        StringTableReader::decode(cut),
        Err(Error::IOError(_))
    ));
}

#[test]
fn stf_invalid_utf8_key() {
    let mut bytes = single_entry_fixture();
    let last = bytes.len() - 1;
    bytes[last] = 0xFF; // key becomes "tes\xFF"
    assert!(matches!(
        StringTableReader::decode(&bytes),
        Err(Error::UTF8Error)
    ));
}

#[test]
fn stf_value_shadowing() {
    // two value records with the same id: the later one wins
    let mut out = Vec::new();
    push_u32(&mut out, 0x0000ABCD);
    out.push(0);
    push_u32(&mut out, 3);
    push_u32(&mut out, 2);
    for text in ["first", "second"] {
        push_u32(&mut out, 7);
        push_u32(&mut out, 0xFFFFFFFF);
        push_u32(&mut out, text.len() as u32);
        for unit in text.encode_utf16() {
            out.extend_from_slice(&unit.to_le_bytes());
        }
    }
    // one key with id 7, one with an id that has no value
    push_u32(&mut out, 7);
    push_u32(&mut out, 1);
    out.extend_from_slice(b"k");
    push_u32(&mut out, 9);
    push_u32(&mut out, 1);
    out.extend_from_slice(b"o");

    let stf = StringTableReader::decode(&out).unwrap();
    assert_eq!(stf.len(), 1); // the orphan key is dropped silently
    let expected: Vec<u16> = "second".encode_utf16().collect();
    assert_eq!(stf.get("k").unwrap(), &expected);
    assert!(stf.get("o").is_none());
    assert!(!stf.contains_key("o"));
    assert!(stf.contains_key("k"));
}

#[test]
fn stf_pairs_round() {
    let pairs = vec![
        ("alpha".to_owned(), "one".to_owned()),
        ("beta".to_owned(), "two".to_owned()),
    ];
    let table = StringTable::from_pairs(&pairs);
    assert_eq!(table.len(), 2);
    let back = table.to_pairs();
    assert_eq!(back, pairs);
    let keys = table.keys();
    assert_eq!(keys, vec!["alpha".to_owned(), "beta".to_owned()]);
}

#[test]
fn stf_visitor_builds_table() {
    let mut visitor = StringTableVisitor::new();
    visitor.visit_entry("greeting".to_owned(), "hello");
    visitor.visit_entry("greeting".to_owned(), "hi"); // replaces
    visitor.visit_entry("farewell".to_owned(), "bye");
    let table = visitor.finish();
    assert_eq!(table.len(), 2);
    let expected: Vec<u16> = "hi".encode_utf16().collect();
    assert_eq!(table.get("greeting").unwrap(), &expected);
}
