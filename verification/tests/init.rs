use papyrus::fs::FileSystem;
use papyrus::sub_commands::init;

#[test]
fn test_execute_non_initialized() {
    let mut fs = FileSystem::access();

    let message = init::execute(&mut fs).unwrap();

    assert_eq!(
        message,
        "Initialized empty Papyrus repository in /Users/jack/cool_project/.papyrus/"
    );

    assert!(fs.path_exists(&format!("{}/.papyrus/", fs.current_directory())));
    assert!(fs.path_exists(&format!("{}/.papyrus/objects", fs.current_directory())));
}

#[test]
fn test_execute_already_initialized() {
    let mut fs = FileSystem::access();

    fs.create_directory(&format!("{}/.papyrus/", fs.current_directory()));

    let message = init::execute(&mut fs).unwrap();

    assert_eq!(
        message,
        "Reinitialized existing Papyrus repository in /Users/jack/cool_project/.papyrus/"
    );

    assert!(fs.path_exists(&format!("{}/.papyrus/", fs.current_directory())));
}
