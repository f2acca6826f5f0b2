use rle_archiver::io::{
    archive_data_to_bytes, bytes_to_archive_data, bytes_to_dir_entry, dir_entry_to_bytes,
    ArchiveData, ArchiveError, DirEntry,
};

fn entry(path: &str, data: &[u8], permissions: u32) -> DirEntry {
    DirEntry { path: path.to_string(), data: data.to_vec(), permissions }
}

fn same(a: &DirEntry, b: &DirEntry) -> bool {
    a.path == b.path && a.data == b.data && a.permissions == b.permissions
}

#[test]
fn archive_single_entry_round_trip() {
    let archive = ArchiveData { entries: vec![entry("a.txt", b"hi", 0o644)] };
    let bytes = archive_data_to_bytes(&archive).unwrap();
    let back = bytes_to_archive_data(&bytes).unwrap();
    assert_eq!(back.entries.len(), 1);
    assert!(same(&back.entries[0], &archive.entries[0]));
}

#[test]
fn archive_layout() {
    let archive = ArchiveData { entries: vec![entry("a.txt", b"hi", 0o644)] };
    let bytes = archive_data_to_bytes(&archive).unwrap();
    let mut expected = vec![1, 0, 0, 0, 19, 0, 0, 0, 0xa4, 0x01, 0, 0, 5, 0, 0, 0];
    expected.extend_from_slice(b"a.txt");
    expected.extend_from_slice(&[2, 0, 0, 0]);
    expected.extend_from_slice(b"hi");
    assert_eq!(bytes, expected);
}

#[test]
fn archive_empty_and_duplicates_round_trip() {
    let empty = ArchiveData { entries: vec![] };
    let bytes = archive_data_to_bytes(&empty).unwrap();
    assert_eq!(bytes, vec![0, 0, 0, 0]);
    assert_eq!(bytes_to_archive_data(&bytes).unwrap().entries.len(), 0);

    let archive = ArchiveData {
        entries: vec![
            entry("dir/x", b"", 0o755),
            entry("dir/x", b"second", 0o600),
            entry("ünïcode/ß", &[0, 1, 2, 255], 0xFFFF_FFFF),
        ],
    };
    let back = bytes_to_archive_data(&archive_data_to_bytes(&archive).unwrap()).unwrap();
    assert_eq!(back.entries.len(), 3);
    for (a, b) in back.entries.iter().zip(archive.entries.iter()) {
        assert!(same(a, b));
    }
}

#[test]
fn entry_record_round_trip() {
    let e = entry("p/q.bin", b"\x00\x01data", 0o700);
    let bytes = dir_entry_to_bytes(&e).unwrap();
    assert_eq!(bytes.len(), 12 + 7 + 6);
    assert_eq!(&bytes[8..15], b"p/q.bin");
    assert!(same(&bytes_to_dir_entry(&bytes).unwrap(), &e));
}

#[test]
fn archive_truncated_errors() {
    assert_eq!(bytes_to_archive_data(&[1, 0]).err(), Some(ArchiveError::Truncated));
    assert_eq!(bytes_to_archive_data(&[1, 0, 0, 0]).err(), Some(ArchiveError::Truncated));
    assert_eq!(
        bytes_to_archive_data(&[1, 0, 0, 0, 50, 0, 0, 0, 1, 2]).err(),
        Some(ArchiveError::Truncated)
    );
    assert_eq!(bytes_to_dir_entry(&[0, 0, 0, 0, 9, 0, 0, 0, b'a']).err(), Some(ArchiveError::Truncated));
}

#[test]
fn archive_invalid_path_error() {
    let record = vec![0, 0, 0, 0, 1, 0, 0, 0, 0xFF, 0, 0, 0, 0];
    assert_eq!(bytes_to_dir_entry(&record).err(), Some(ArchiveError::InvalidPath));
}
