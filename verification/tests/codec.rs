use papyrus::errors::ErrorKind;
use papyrus::fs::FileSystem;
use papyrus::index::IndexEntry;
use papyrus::sub_commands::{add, init, ls_files};
use papyrus::zlib::{compress_round_trip, zlib_compress, zlib_decompress};

fn sample_entry(path: &str, sha1: [u8; 20]) -> IndexEntry {
    IndexEntry {
        ctime_s: vec![94, 220, 132, 142],
        ctime_n: vec![0, 0, 0, 0],
        mtime_s: vec![94, 220, 132, 142],
        mtime_n: vec![0, 0, 0, 0],
        dev: vec![1, 0, 0, 4],
        ino: vec![1, 72, 83, 202],
        mode: vec![0, 0, 129, 164],
        uid: vec![0, 0, 1, 245],
        gid: vec![0, 0, 0, 20],
        size: vec![0, 0, 1, 23],
        sha1: sha1.to_vec(),
        flags: vec![0, path.len() as u8],
        path: path.as_bytes().to_vec(),
    }
}

#[test]
fn decompressing_compressed_bytes_returns_them() {
    let cases: Vec<Vec<u8>> = vec![
        vec![],
        b"x".to_vec(),
        b"contents\nanother line".to_vec(),
        vec![0, 255, 1, 254, 0, 0, 0, 7],
    ];
    for bytes in cases {
        assert_eq!(compress_round_trip(&bytes), bytes);
        let compressed = zlib_compress(&bytes);
        assert_eq!(zlib_decompress(&compressed).unwrap(), bytes);
    }
}

#[test]
fn malformed_compressed_input_is_rejected() {
    assert!(zlib_decompress(b"definitely not a zlib stream").is_none());
}

#[test]
fn serialized_entries_parse_back() {
    let entries = vec![
        sample_entry("a.txt", [1; 20]),
        sample_entry("b/c.txt", [2; 20]),
        sample_entry("zzz", [3; 20]),
    ];
    let expected: Vec<(Vec<u8>, Vec<u8>)> =
        entries.iter().map(|e| (e.path.clone(), e.sha1.clone())).collect();

    let bytes = IndexEntry::parse_into_file(entries);
    let parsed = IndexEntry::parse_from_file(&bytes).unwrap();

    assert_eq!(parsed.len(), 3);
    for (entry, (path, sha1)) in parsed.iter().zip(expected.iter()) {
        assert_eq!(&entry.path, path);
        assert_eq!(&entry.sha1, sha1);
        assert_eq!(entry.ctime_s, vec![94, 220, 132, 142]);
        assert_eq!(entry.mode, vec![0, 0, 129, 164]);
    }
}

#[test]
fn bad_signature_is_reported() {
    let entries = vec![sample_entry("a.txt", [1; 20])];
    let mut bytes = IndexEntry::parse_into_file(entries);
    bytes[0] = b'X';
    let e = IndexEntry::parse_from_file(&bytes).unwrap_err();
    assert_eq!(e.kind, ErrorKind::Corrupt);
    assert_eq!(e.message, "error: bad signature\nfatal: index file corrupt");
}

#[test]
fn bad_version_is_reported() {
    let entries = vec![sample_entry("a.txt", [1; 20])];
    let mut bytes = IndexEntry::parse_into_file(entries);
    bytes[7] = 3;
    let e = IndexEntry::parse_from_file(&bytes).unwrap_err();
    assert_eq!(e.kind, ErrorKind::Corrupt);
    assert_eq!(e.message, "error: bad version\nfatal: index file corrupt");
}

#[test]
fn bad_checksum_is_reported() {
    let entries = vec![sample_entry("a.txt", [1; 20])];
    let mut bytes = IndexEntry::parse_into_file(entries);
    let last = bytes.len() - 1;
    bytes[last] = bytes[last].wrapping_add(1);
    let e = IndexEntry::parse_from_file(&bytes).unwrap_err();
    assert_eq!(e.kind, ErrorKind::Corrupt);
    assert_eq!(
        e.message,
        "error: bad index file sha1 signature\nfatal: index file corrupt"
    );
}

#[test]
fn entries_are_sorted_by_path_on_add() {
    let mut fs = FileSystem::access();
    init::execute(&mut fs).unwrap();

    let late = format!("{}/zebra.txt", fs.current_directory());
    let early = format!("{}/aardvark.txt", fs.current_directory());
    fs.write_file(&late, b"stripes");
    fs.write_file(&early, b"snout");

    add::execute(&mut fs, vec![late.clone(), early.clone()]).unwrap();

    let listing = ls_files::execute(&fs, false).unwrap();
    assert_eq!(listing, format!("{}\n{}", early, late));
}

#[test]
fn staged_listing_shows_mode_hash_and_stage() {
    let mut fs = FileSystem::access();
    init::execute(&mut fs).unwrap();

    let file1 = format!("{}/file1.txt", fs.current_directory());
    fs.write_file(&file1, b"cool content");
    add::execute(&mut fs, vec![file1.clone()]).unwrap();

    let listing = ls_files::execute(&fs, true).unwrap();
    assert_eq!(
        listing,
        format!("100644 bf80318b217671bd19ae4548496fc877800b0150 0\t{}", file1)
    );
}

#[test]
fn missing_index_lists_nothing() {
    let fs = FileSystem::access();
    assert_eq!(ls_files::execute(&fs, false).unwrap(), "");
}

#[test]
fn unreadable_file_reports_io_failure() {
    let fs = FileSystem::access();
    let e = fs
        .get_file_contents_as_bytes("/Users/jack/cool_project/nope")
        .unwrap_err();
    assert_eq!(e.kind, ErrorKind::IoFailure);
    assert_eq!(
        e.message,
        "fatal: Cannot open '/Users/jack/cool_project/nope': No such file or directory (os error 2)"
    );
}
