use papyrus::errors::ErrorKind;
use papyrus::fs::FileSystem;
use papyrus::sub_commands::{cat_file, hash_object};

#[test]
fn test_execute_existing_file_contents() {
    let mut fs = FileSystem::access();

    let example_content = b"awesome contents yo";

    hash_object::execute(&mut fs, example_content, "blob".into(), true).unwrap();

    assert_eq!(
        cat_file::execute(
            &fs,
            "blob".into(),
            "5c7f7d83d0da2baceb3789aaf457a699455992fe".into()
        )
        .unwrap(),
        "awesome contents yo"
    );
}

#[test]
fn test_execute_non_existing_file() {
    let fs = FileSystem::access();

    assert_eq!(
        cat_file::execute(
            &fs,
            "blob".into(),
            "5c7f7d83d0da2baceb3789aaf457a699455992fe".into()
        )
        .unwrap_err()
        .message,
        "fatal: Not a valid object name 5c7f7d83d0da2baceb3789aaf457a699455992fe"
    );
}

#[test]
fn test_execute_existing_file_starts_with() {
    let mut fs = FileSystem::access();

    let example_content = b"awesome contents yo";

    hash_object::execute(&mut fs, example_content, "blob".into(), true).unwrap();

    assert_eq!(
        cat_file::execute(&fs, "blob".into(), "5c7f7d".into()).unwrap(),
        "awesome contents yo"
    );
}

#[test]
fn test_execute_wrong_first_parameter() {
    let fs = FileSystem::access();

    assert_eq!(
        cat_file::execute(
            &fs,
            "NON EXISTING PARAMETER".into(),
            "5c7f7d83d0da2baceb3789aaf457a699455992fe".into()
        )
        .unwrap_err()
        .message,
        "fatal: papyrus cat-file first parameter can only receive one of (-t, blob, tree)"
    );
}

#[test]
fn test_execute_existing_file_type() {
    let mut fs = FileSystem::access();

    let example_content = b"awesome contents yo";

    hash_object::execute(&mut fs, example_content, "blob".into(), true).unwrap();

    assert_eq!(
        cat_file::execute(
            &fs,
            "-t".into(),
            "5c7f7d83d0da2baceb3789aaf457a699455992fe".into()
        )
        .unwrap(),
        "blob"
    );
}

#[test]
fn prefix_lookup_error_kinds() {
    let fs = FileSystem::access();
    let missing = cat_file::execute(&fs, "blob".into(), "5c7f7d".into()).unwrap_err();
    assert_eq!(missing.kind, ErrorKind::NotFound);

    let invalid = cat_file::execute(&fs, "bad".into(), "5c7f7d".into()).unwrap_err();
    assert_eq!(invalid.kind, ErrorKind::InvalidArgument);
}

#[test]
fn ambiguous_prefix_is_rejected() {
    let mut fs = FileSystem::access();

    // Two fake object files whose names share the directory and a long
    // prefix of the stored name.
    let dir = format!("{}/.papyrus/objects/ab", fs.current_directory());
    fs.create_directory(&dir);
    fs.write_file(&format!("{}/cdef00", dir), b"one");
    fs.write_file(&format!("{}/cdef11", dir), b"two");

    let e = cat_file::execute(&fs, "blob".into(), "abcdef".into()).unwrap_err();
    assert_eq!(e.kind, ErrorKind::Ambiguous);
    assert_eq!(
        e.message,
        "fatal: ambigious argument 'abcdef', there are more than one object with same name"
    );
}
