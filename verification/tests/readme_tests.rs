use readme_update::{FakeFileSystem, FsError, ReadMe};

#[test]
fn readme_parse_accepts_readme_names_case_insensitively() {
    let fs = FakeFileSystem::new(vec![
        ("README.md".to_string(), "one".to_string()),
        ("docs/readme.txt".to_string(), "two".to_string()),
        ("MyReadmeFile.RST".to_string(), "three".to_string()),
    ]);
    assert_eq!(ReadMe::parse(&fs, "README.md").unwrap().0, "one");
    assert_eq!(ReadMe::parse(&fs, "docs/readme.txt").unwrap().0, "two");
    assert_eq!(ReadMe::parse(&fs, "MyReadmeFile.RST").unwrap().0, "three");
}

#[test]
fn readme_parse_rejects_wrong_name_or_extension() {
    let fs = FakeFileSystem::new(vec![
        ("INVALID.md".to_string(), "x".to_string()),
        ("README.doc".to_string(), "x".to_string()),
        ("README".to_string(), "x".to_string()),
    ]);
    assert_eq!(ReadMe::parse(&fs, "INVALID.md").unwrap_err(), FsError::InvalidInput);
    assert_eq!(ReadMe::parse(&fs, "README.doc").unwrap_err(), FsError::InvalidInput);
    assert_eq!(ReadMe::parse(&fs, "README").unwrap_err(), FsError::InvalidInput);
}

#[test]
fn readme_parse_reports_missing_file() {
    let fs = FakeFileSystem::new(vec![]);
    assert_eq!(ReadMe::parse(&fs, "README.md").unwrap_err(), FsError::NotFound);
}

#[test]
fn readme_write_stores_contents() {
    let mut fs = FakeFileSystem::new(vec![]);
    let doc = ReadMe("fresh text".to_string());
    doc.write(&mut fs, "README.md").unwrap();
    assert_eq!(ReadMe::parse(&fs, "README.md").unwrap().0, "fresh text");
}
