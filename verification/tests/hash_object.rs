use papyrus::fs::FileSystem;
use papyrus::hashing::create_sha1;
use papyrus::sub_commands::hash_object;
use papyrus::zlib::zlib_compress;

#[test]
fn test_create_sha1() {
    assert_eq!(
        create_sha1(b"blob 21\x00contents\nanother line"),
        "f9936bb09530fbc19a32568bde0738d9234037e4"
    );
}

#[test]
fn test_zlib_compress() {
    assert_eq!(
        zlib_compress(b"blob 21\x00contents\nanother line"),
        vec![
            120, 156, 75, 202, 201, 79, 82, 48, 50, 100, 72, 206, 207, 43, 73, 205, 43, 41, 230,
            74, 204, 203, 47, 201, 72, 45, 82, 200, 201, 204, 75, 5, 0, 148, 92, 10, 84
        ]
    );
}

#[test]
fn test_execute_without_write() {
    let mut fs = FileSystem::access();

    let example_content = b"contents\nanother line";

    assert_eq!(
        hash_object::execute(&mut fs, example_content, "blob".into(), false).unwrap(),
        "f9936bb09530fbc19a32568bde0738d9234037e4"
    );
}

#[test]
fn test_execute_with_write() {
    let mut fs = FileSystem::access();

    let example_content = b"contents\nanother line";

    assert_eq!(
        hash_object::execute(&mut fs, example_content, "blob".into(), true).unwrap(),
        "f9936bb09530fbc19a32568bde0738d9234037e4"
    );

    assert!(fs.path_exists(&format!("{}/.papyrus/objects/f9", fs.current_directory())));
    assert!(fs.path_exists(&format!(
        "{}/.papyrus/objects/f9/936bb09530fbc19a32568bde0738d9234037e4",
        fs.current_directory()
    )));
    let full_file_path = format!(
        "{}/.papyrus/objects/f9/936bb09530fbc19a32568bde0738d9234037e4",
        fs.current_directory()
    );
    assert_eq!(
        fs.get_file_contents_as_bytes(&full_file_path).unwrap(),
        vec![
            120, 156, 75, 202, 201, 79, 82, 48, 50, 100, 72, 206, 207, 43, 73, 205, 43, 41, 230,
            74, 204, 203, 47, 201, 72, 45, 82, 200, 201, 204, 75, 5, 0, 148, 92, 10, 84
        ]
    );
}

#[test]
fn writing_the_same_object_twice_stores_one_file() {
    let mut fs = FileSystem::access();

    let first = hash_object::execute(&mut fs, b"same bytes", "blob".into(), true).unwrap();
    let count_after_first = fs.file_count();
    let stored_path = format!(
        "{}/.papyrus/objects/{}/{}",
        fs.current_directory(),
        &first[..2],
        &first[2..]
    );
    let stored_first = fs.get_file_contents_as_bytes(&stored_path).unwrap();

    let second = hash_object::execute(&mut fs, b"same bytes", "blob".into(), true).unwrap();
    let count_after_second = fs.file_count();
    let stored_second = fs.get_file_contents_as_bytes(&stored_path).unwrap();

    assert_eq!(first, second);
    assert_eq!(count_after_first, 1);
    assert_eq!(count_after_second, 1);
    assert_eq!(stored_first, stored_second);
}
