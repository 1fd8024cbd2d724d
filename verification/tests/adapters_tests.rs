use readme_update::{FakeFileSystem, FileSystem, FsError};

#[test]
fn fake_fs_lists_only_py_files() {
    let fs = FakeFileSystem::new(vec![
        ("dir/a.py".to_string(), "a".to_string()),
        ("dir/readme.md".to_string(), "r".to_string()),
        ("b.py".to_string(), "b".to_string()),
        (".py".to_string(), "hidden".to_string()),
    ]);
    let listed = fs.list_py_files("dir");
    assert_eq!(listed, vec!["dir/a.py".to_string(), "b.py".to_string()]);
}

#[test]
fn fake_fs_reads_what_it_holds() {
    let fs = FakeFileSystem::new(vec![("x.py".to_string(), "contents".to_string())]);
    assert_eq!(fs.read_to_string("x.py").unwrap(), "contents");
    assert_eq!(fs.read_to_string("missing.py").unwrap_err(), FsError::NotFound);
}

#[test]
fn fake_fs_write_overrides_and_logs() {
    let mut fs = FakeFileSystem::new(vec![("x.md".to_string(), "old".to_string())]);
    fs.write("x.md", "new").unwrap();
    assert_eq!(fs.read_to_string("x.md").unwrap(), "new");
    fs.write("y.md", "fresh").unwrap();
    assert_eq!(fs.read_to_string("y.md").unwrap(), "fresh");
    assert_eq!(
        fs.operations,
        vec!["write: `x.md`".to_string(), "write: `y.md`".to_string()]
    );
}

#[test]
fn fake_fs_default_is_empty() {
    let fs = FakeFileSystem::default();
    assert!(fs.files.is_empty());
    assert!(fs.operations.is_empty());
    assert!(fs.list_py_files(".").is_empty());
}

#[test]
fn fake_fs_lists_each_path_once_after_overwrite() {
    let mut fs = FakeFileSystem::new(vec![("a.py".to_string(), "one".to_string())]);
    fs.write("a.py", "two").unwrap();
    assert_eq!(fs.list_py_files("."), vec!["a.py".to_string()]);
    assert_eq!(fs.read_to_string("a.py").unwrap(), "two");
}

#[test]
fn fake_fs_duplicate_entries_act_as_one_file() {
    let fs = FakeFileSystem::new(vec![
        ("a.py".to_string(), "old".to_string()),
        ("b.py".to_string(), "bee".to_string()),
        ("a.py".to_string(), "new".to_string()),
    ]);
    assert_eq!(fs.list_py_files("."), vec!["b.py".to_string(), "a.py".to_string()]);
    assert_eq!(fs.read_to_string("a.py").unwrap(), "new");
}
