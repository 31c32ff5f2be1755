use papyrus::fs::FileSystem;
use papyrus::sub_commands::{add, init};

#[test]
fn execute_when_index_file_doesnt_exist() {
    let mut fs = FileSystem::access();

    init::execute(&mut fs).unwrap();

    let file1_path = format!("{}/file1.txt", fs.current_directory());
    let file1_content = "cool content";

    fs.create_file(&file1_path);
    fs.write_file(&file1_path, file1_content.as_bytes());

    let file2_path = format!("{}/file2.txt", fs.current_directory());
    let file2_content = "moar content";

    fs.create_file(&file2_path);
    fs.write_file(&file2_path, file2_content.as_bytes());

    assert_eq!(
        add::execute(&mut fs, vec![file1_path.clone(), file2_path.clone()]).unwrap(),
        ""
    );

    let index_path = format!("{}/.papyrus/index", fs.current_directory());
    fs.path_exists(&index_path);
    assert_eq!(
        fs.get_file_contents_as_bytes(&index_path).unwrap(),
        vec![
            68, 73, 82, 67, 0, 0, 0, 2, 0, 0, 0, 2, 94, 220, 132, 142, 0, 0, 0, 0, 94, 220, 132,
            142, 0, 0, 0, 0, 1, 0, 0, 4, 1, 72, 83, 202, 0, 0, 129, 164, 0, 0, 1, 245, 0, 0, 0, 20,
            0, 0, 1, 23, 191, 128, 49, 139, 33, 118, 113, 189, 25, 174, 69, 72, 73, 111, 200, 119,
            128, 11, 1, 80, 0, 34, 47, 85, 115, 101, 114, 115, 47, 106, 97, 99, 107, 47, 99, 111,
            111, 108, 95, 112, 114, 111, 106, 101, 99, 116, 47, 102, 105, 108, 101, 49, 46, 116,
            120, 116, 0, 0, 0, 0, 0, 0, 0, 0, 94, 220, 132, 142, 0, 0, 0, 0, 94, 220, 132, 142, 0,
            0, 0, 0, 1, 0, 0, 4, 1, 72, 83, 202, 0, 0, 129, 164, 0, 0, 1, 245, 0, 0, 0, 20, 0, 0,
            1, 23, 35, 246, 130, 118, 105, 228, 56, 49, 222, 248, 167, 173, 147, 80, 105, 200, 189,
            65, 130, 97, 0, 34, 47, 85, 115, 101, 114, 115, 47, 106, 97, 99, 107, 47, 99, 111, 111,
            108, 95, 112, 114, 111, 106, 101, 99, 116, 47, 102, 105, 108, 101, 50, 46, 116, 120,
            116, 0, 0, 0, 0, 0, 0, 0, 0, 15, 184, 97, 178, 88, 219, 181, 208, 154, 96, 108, 32,
            152, 105, 86, 208, 186, 172, 150, 62
        ]
    );
}

#[test]
fn execute_when_index_file_already_exists() {
    let mut fs = FileSystem::access();

    init::execute(&mut fs).unwrap();

    let file1_path = format!("{}/file1.txt", fs.current_directory());
    let file1_content = "cool content";

    fs.create_file(&file1_path);
    fs.write_file(&file1_path, file1_content.as_bytes());

    let file2_path = format!("{}/file2.txt", fs.current_directory());
    let file2_content = "changed! content";

    fs.create_file(&file2_path);
    fs.write_file(&file2_path, file2_content.as_bytes());

    let index_path = format!("{}/.papyrus/index", fs.current_directory());
    let index_content = [
        68, 73, 82, 67, 0, 0, 0, 2, 0, 0, 0, 2, 94, 220, 132, 142, 0, 0, 0, 0, 94, 220, 132, 142,
        0, 0, 0, 0, 1, 0, 0, 4, 1, 72, 83, 202, 0, 0, 129, 164, 0, 0, 1, 245, 0, 0, 0, 20, 0, 0, 1,
        23, 191, 128, 49, 139, 33, 118, 113, 189, 25, 174, 69, 72, 73, 111, 200, 119, 128, 11, 1,
        80, 0, 34, 47, 85, 115, 101, 114, 115, 47, 106, 97, 99, 107, 47, 99, 111, 111, 108, 95,
        112, 114, 111, 106, 101, 99, 116, 47, 102, 105, 108, 101, 49, 46, 116, 120, 116, 0, 0, 0,
        0, 0, 0, 0, 0, 94, 220, 132, 142, 0, 0, 0, 0, 94, 220, 132, 142, 0, 0, 0, 0, 1, 0, 0, 4, 1,
        72, 83, 202, 0, 0, 129, 164, 0, 0, 1, 245, 0, 0, 0, 20, 0, 0, 1, 23, 35, 246, 130, 118,
        105, 228, 56, 49, 222, 248, 167, 173, 147, 80, 105, 200, 189, 65, 130, 97, 0, 34, 47, 85,
        115, 101, 114, 115, 47, 106, 97, 99, 107, 47, 99, 111, 111, 108, 95, 112, 114, 111, 106,
        101, 99, 116, 47, 102, 105, 108, 101, 50, 46, 116, 120, 116, 0, 0, 0, 0, 0, 0, 0, 0, 15,
        184, 97, 178, 88, 219, 181, 208, 154, 96, 108, 32, 152, 105, 86, 208, 186, 172, 150, 62,
    ];

    fs.create_file(&index_path);
    fs.write_file(&index_path, &index_content);

    assert_eq!(
        add::execute(&mut fs, vec![file1_path.clone(), file2_path.clone()]).unwrap(),
        ""
    );

    let index_path = format!("{}/.papyrus/index", fs.current_directory());
    fs.path_exists(&index_path);
    assert_eq!(
        fs.get_file_contents_as_bytes(&index_path).unwrap(),
        vec![
            68, 73, 82, 67, 0, 0, 0, 2, 0, 0, 0, 2, 94, 220, 132, 142, 0, 0, 0, 0, 94, 220, 132,
            142, 0, 0, 0, 0, 1, 0, 0, 4, 1, 72, 83, 202, 0, 0, 129, 164, 0, 0, 1, 245, 0, 0, 0, 20,
            0, 0, 1, 23, 191, 128, 49, 139, 33, 118, 113, 189, 25, 174, 69, 72, 73, 111, 200, 119,
            128, 11, 1, 80, 0, 34, 47, 85, 115, 101, 114, 115, 47, 106, 97, 99, 107, 47, 99, 111,
            111, 108, 95, 112, 114, 111, 106, 101, 99, 116, 47, 102, 105, 108, 101, 49, 46, 116,
            120, 116, 0, 0, 0, 0, 0, 0, 0, 0, 94, 220, 132, 142, 0, 0, 0, 0, 94, 220, 132, 142, 0,
            0, 0, 0, 1, 0, 0, 4, 1, 72, 83, 202, 0, 0, 129, 164, 0, 0, 1, 245, 0, 0, 0, 20, 0, 0,
            1, 23, 236, 62, 127, 142, 227, 218, 246, 50, 102, 100, 32, 44, 9, 37, 91, 108, 85, 180,
            100, 18, 0, 34, 47, 85, 115, 101, 114, 115, 47, 106, 97, 99, 107, 47, 99, 111, 111,
            108, 95, 112, 114, 111, 106, 101, 99, 116, 47, 102, 105, 108, 101, 50, 46, 116, 120,
            116, 0, 0, 0, 0, 0, 0, 0, 0, 221, 94, 59, 30, 252, 54, 175, 16, 154, 198, 40, 39, 27,
            28, 189, 29, 90, 246, 136, 138
        ]
    );
}

#[test]
fn execute_when_one_of_passing_files() {
    let mut fs = FileSystem::access();

    init::execute(&mut fs).unwrap();

    let file1_path = format!("{}/file1.txt", fs.current_directory());
    let file1_content = "cool content";

    fs.create_file(&file1_path);
    fs.write_file(&file1_path, file1_content.as_bytes());

    let file2_path = format!("{}/file2.txt", fs.current_directory());

    assert_eq!(
        add::execute(&mut fs, vec![file1_path.clone(), file2_path.clone()])
            .unwrap_err()
            .message,
        "fatal: pathspec '/Users/jack/cool_project/file2.txt' did not match any files"
    );
}

#[test]
fn failing_path_leaves_index_file_unchanged() {
    let mut fs = FileSystem::access();

    init::execute(&mut fs).unwrap();

    let file1_path = format!("{}/file1.txt", fs.current_directory());
    fs.create_file(&file1_path);
    fs.write_file(&file1_path, b"cool content");

    add::execute(&mut fs, vec![file1_path.clone()]).unwrap();

    let index_path = format!("{}/.papyrus/index", fs.current_directory());
    let before = fs.get_file_contents_as_bytes(&index_path).unwrap();

    let missing = format!("{}/absent.txt", fs.current_directory());
    let e = add::execute(&mut fs, vec![missing]).unwrap_err();
    assert_eq!(e.kind, papyrus::errors::ErrorKind::NotFound);

    let after = fs.get_file_contents_as_bytes(&index_path).unwrap();
    assert_eq!(before, after);
}
