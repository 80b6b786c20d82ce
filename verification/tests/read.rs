use swg::read::TreArchive;

#[test]
fn read_invalid_magic() {
    let input = vec![
        0x40, 0x45, 0x52, 0x54, 0x35, 0x30, 0x30, 0x30,
        0x00, 0x00, 0x00, 0x00,
        0x28, 0x00, 0x00, 0x00,
        0x00, 0x00, 0x00, 0x00,
        0x00, 0x00, 0x00, 0x00,
        0x00, 0x00, 0x00, 0x00,
        0x00, 0x00, 0x00, 0x00,
        0x00, 0x00, 0x00, 0x00,
    ];

    let archive = TreArchive::new(input);
    assert!(archive.is_err());
}

#[test]
fn read_empty_uncompressed_tre() {
    let input = vec![
        0x45, 0x45, 0x52, 0x54, 0x35, 0x30, 0x30, 0x30, 0x00, 0x00, 0x00, 0x00, 0x28, 0x00,
        0x00, 0x00, 0x00, 0x00, 0x00, 0x00, 0x00, 0x00, 0x00, 0x00, 0x00, 0x00, 0x00, 0x00,
        0x00, 0x00, 0x00, 0x00, 0x00, 0x00, 0x00, 0x00,
    ];

    let archive = TreArchive::new(input);
    assert!(archive.is_ok());
    assert!(archive.unwrap().is_empty());
}

#[test]
fn read_empty_compressed_tre() {
    let input = vec![
        0x45, 0x45, 0x52, 0x54, 0x35, 0x30, 0x30, 0x30, 0x00, 0x00, 0x00, 0x00, 0x28, 0x00,
        0x00, 0x00, 0x02, 0x00, 0x00, 0x00, 0x00, 0x00, 0x00, 0x00, 0x02, 0x00, 0x00, 0x00,
        0x00, 0x00, 0x00, 0x00, 0x00, 0x00, 0x00, 0x00,
    ];

    let archive = TreArchive::new(input);
    assert!(archive.is_ok());
    assert!(archive.unwrap().is_empty());
}

#[test]
fn read_uncompressed_tre_with_entry() {
    let input = vec![
        // Header (36)
        0x45, 0x45, 0x52, 0x54, 0x35, 0x30, 0x30, 0x30, 0x01, 0x00, 0x00, 0x00, 0x2F, 0x00,
        0x00, 0x00, 0x00, 0x00, 0x00, 0x00, 0x18, 0x00, 0x00, 0x00, 0x00, 0x00, 0x00, 0x00,
        0x0A, 0x00, 0x00, 0x00, 0x0A, 0x00, 0x00, 0x00, // Data (11)
        0x48, 0x65, 0x6C, 0x6C, 0x6F, 0x20, 0x57, 0x6F, 0x72, 0x6C, 0x64,
        // Records (24)
        0x00, 0x00, 0x00, 0x00, 0x0B, 0x00, 0x00, 0x00, 0x24, 0x00, 0x00, 0x00, 0x00, 0x00,
        0x00, 0x00, 0x0B, 0x00, 0x00, 0x00, 0x00, 0x00, 0x00, 0x00, // Names (10)
        0x68, 0x65, 0x6C, 0x6C, 0x6F, 0x2E, 0x74, 0x78, 0x74, 0x00,
    ];

    let archive = TreArchive::new(input).unwrap();
    assert_eq!(archive.len(), 1);

    let file = archive.by_index(0).unwrap();
    assert_eq!(file.data_start(), 36);
    assert_eq!(file.name(), "hello.txt");

    assert_eq!(
        file.data(),
        &vec![0x48, 0x65, 0x6C, 0x6C, 0x6F, 0x20, 0x57, 0x6F, 0x72, 0x6C, 0x64]
    );
}

#[test]
fn read_compressed_file_tre_with_entry() {
    let input = vec![
        // Header (36)
        0x45, 0x45, 0x52, 0x54, 0x35, 0x30, 0x30, 0x30, 0x01, 0x00, 0x00, 0x00, 0x37, 0x00,
        0x00, 0x00, 0x00, 0x00, 0x00, 0x00, 0x18, 0x00, 0x00, 0x00, 0x00, 0x00, 0x00, 0x00,
        0x0A, 0x00, 0x00, 0x00, 0x0A, 0x00, 0x00, 0x00, // Data (19)
        0x78, 0x9C, 0xF3, 0x48, 0xCD, 0xC9, 0xC9, 0x57, 0x08, 0xCF, 0x2F, 0xCA, 0x49, 0x01,
        0x00, 0x18, 0x0B, 0x04, 0x1D, // Records (24)
        0x00, 0x00, 0x00, 0x00, 0x0B, 0x00, 0x00, 0x00, 0x24, 0x00, 0x00, 0x00, 0x02, 0x00,
        0x00, 0x00, 0x13, 0x00, 0x00, 0x00, 0x00, 0x00, 0x00, 0x00, // Names (10)
        0x68, 0x65, 0x6C, 0x6C, 0x6F, 0x2E, 0x74, 0x78, 0x74, 0x00,
    ];

    let archive = TreArchive::new(input).unwrap();
    assert_eq!(archive.len(), 1);

    let file = archive.by_index(0).unwrap();
    assert_eq!(file.data_start(), 36);
    assert_eq!(file.name(), "hello.txt");

    assert_eq!(
        file.data(),
        &vec![0x48, 0x65, 0x6C, 0x6C, 0x6F, 0x20, 0x57, 0x6F, 0x72, 0x6C, 0x64]
    );
}

#[test]
fn read_uncompressed_tre_with_multiple_entries() {
    let input = vec![
        // Header (36)
        0x45, 0x45, 0x52, 0x54, 0x35, 0x30, 0x30, 0x30, 0x02, 0x00, 0x00, 0x00, 0x4A, 0x00,
        0x00, 0x00, 0x00, 0x00, 0x00, 0x00, 0x30, 0x00, 0x00, 0x00, 0x00, 0x00, 0x00, 0x00,
        0x14, 0x00, 0x00, 0x00, 0x14, 0x00, 0x00, 0x00, // Data (38)
        0x78, 0x9C, 0xF3, 0x48, 0xCD, 0xC9, 0xC9, 0x57, 0x08, 0xCF, 0x2F, 0xCA, 0x49, 0x01,
        0x00, 0x18, 0x0B, 0x04, 0x1D, 0x78, 0x9C, 0x0B, 0xCF, 0x2F, 0xCA, 0x49, 0x51, 0xF0,
        0x48, 0xCD, 0xC9, 0xC9, 0x07, 0x00, 0x18, 0x83, 0x04, 0x1D, // Records (48)
        0x00, 0x00, 0x00, 0x00, 0x0B, 0x00, 0x00, 0x00, 0x24, 0x00, 0x00, 0x00, 0x02, 0x00,
        0x00, 0x00, 0x13, 0x00, 0x00, 0x00, 0x00, 0x00, 0x00, 0x00, 0x00, 0x00, 0x00, 0x00,
        0x0B, 0x00, 0x00, 0x00, 0x37, 0x00, 0x00, 0x00, 0x02, 0x00, 0x00, 0x00, 0x13, 0x00,
        0x00, 0x00, 0x0A, 0x00, 0x00, 0x00, // Names
        0x68, 0x65, 0x6C, 0x6C, 0x6F, 0x2E, 0x74, 0x78, 0x74, 0x00, 0x77, 0x6F, 0x72, 0x6C,
        0x64, 0x2E, 0x74, 0x78, 0x74, 0x00,
    ];

    let archive = TreArchive::new(input).unwrap();
    assert_eq!(archive.len(), 2);

    let file_first = archive.by_index(0).unwrap();
    assert_eq!(file_first.data_start(), 36);
    assert_eq!(file_first.name(), "hello.txt");

    assert_eq!(
        file_first.data(),
        &vec![0x48, 0x65, 0x6C, 0x6C, 0x6F, 0x20, 0x57, 0x6F, 0x72, 0x6C, 0x64]
    );

    let file_second = archive.by_index(1).unwrap();
    assert_eq!(file_second.data_start(), 55);
    assert_eq!(file_second.name(), "world.txt");

    assert_eq!(
        file_second.data(),
        &vec![0x57, 0x6F, 0x72, 0x6C, 0x64, 0x20, 0x48, 0x65, 0x6C, 0x6C, 0x6F]
    );
}

#[test]
fn read_compressed_file_tre_with_multiple_entries() {
    let input = vec![
        // Header (36)
        0x45, 0x45, 0x52, 0x54, 0x35, 0x30, 0x30, 0x30, 0x02, 0x00, 0x00, 0x00, 0x3A, 0x00,
        0x00, 0x00, 0x00, 0x00, 0x00, 0x00, 0x30, 0x00, 0x00, 0x00, 0x00, 0x00, 0x00, 0x00,
        0x14, 0x00, 0x00, 0x00, 0x14, 0x00, 0x00, 0x00, // Data (22)
        0x48, 0x65, 0x6C, 0x6C, 0x6F, 0x20, 0x57, 0x6F, 0x72, 0x6C, 0x64, 0x57, 0x6F, 0x72,
        0x6C, 0x64, 0x20, 0x48, 0x65, 0x6C, 0x6C, 0x6F, // Records (48)
        0x00, 0x00, 0x00, 0x00, 0x0B, 0x00, 0x00, 0x00, 0x24, 0x00, 0x00, 0x00, 0x00, 0x00,
        0x00, 0x00, 0x0B, 0x00, 0x00, 0x00, 0x00, 0x00, 0x00, 0x00, 0x00, 0x00, 0x00, 0x00,
        0x0B, 0x00, 0x00, 0x00, 0x2F, 0x00, 0x00, 0x00, 0x00, 0x00, 0x00, 0x00, 0x0B, 0x00,
        0x00, 0x00, 0x0A, 0x00, 0x00, 0x00, // Names
        0x68, 0x65, 0x6C, 0x6C, 0x6F, 0x2E, 0x74, 0x78, 0x74, 0x00, 0x77, 0x6F, 0x72, 0x6C,
        0x64, 0x2E, 0x74, 0x78, 0x74, 0x00,
    ];

    let archive = TreArchive::new(input).unwrap();
    assert_eq!(archive.len(), 2);

    let file_first = archive.by_index(0).unwrap();
    assert_eq!(file_first.data_start(), 36);
    assert_eq!(file_first.name(), "hello.txt");

    assert_eq!(
        file_first.data(),
        &vec![0x48, 0x65, 0x6C, 0x6C, 0x6F, 0x20, 0x57, 0x6F, 0x72, 0x6C, 0x64]
    );

    let file_second = archive.by_index(1).unwrap();
    assert_eq!(file_second.data_start(), 47);
    assert_eq!(file_second.name(), "world.txt");

    assert_eq!(
        file_second.data(),
        &vec![0x57, 0x6F, 0x72, 0x6C, 0x64, 0x20, 0x48, 0x65, 0x6C, 0x6C, 0x6F]
    );
}
