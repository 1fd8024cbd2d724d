use readme_update::{main, FakeFileSystem, FileSystem, FsError, RetCode};

#[test]
fn pipeline_appends_section_and_modifies() {
    let mut fs = FakeFileSystem::new(vec![
        ("README.md".to_string(), "# Some readme".to_string()),
        (
            "scripts/file1.py".to_string(),
            "\"\"\"Description: This is a description\n\nLink: some_link.com/link1\"\"\"\nprint()\n"
                .to_string(),
        ),
    ]);
    let fields = vec!["Description".to_string(), "Link".to_string()];
    let links = vec!["Link".to_string()];
    let r = main(&mut fs, "scripts".to_string(), "README.md", &fields, &links);
    assert_eq!(r, RetCode::ModifiedReadme);
    let expected = [
        "# Some readme",
        "",
        "# Scripts",
        "| Name | Description | Link |",
        "|:---|:---|:---|",
        "| `file1.py` | This is a description | [Link](some_link.com/link1) |",
        "::",
    ]
    .join("\n");
    assert_eq!(fs.read_to_string("README.md").unwrap(), expected);
    assert_eq!(fs.operations, vec!["write: `README.md`".to_string()]);
}

#[test]
fn pipeline_no_modification_when_table_in_place() {
    let readme = [
        "intro",
        "# Scripts",
        "| Name | Description |",
        "|:---|:---|",
        "| `a.py` | ay |",
        "::",
        "outro",
    ]
    .join("\n");
    let mut fs = FakeFileSystem::new(vec![
        ("README.md".to_string(), readme.clone()),
        (
            "a.py".to_string(),
            "\"\"\"Description: ay\"\"\"".to_string(),
        ),
    ]);
    let fields = vec!["Description".to_string()];
    let links: Vec<String> = vec![];
    let r = main(&mut fs, ".".to_string(), "README.md", &fields, &links);
    assert_eq!(r, RetCode::NoModification);
    assert_eq!(fs.read_to_string("README.md").unwrap(), readme);
    assert!(fs.operations.is_empty());
}

#[test]
fn pipeline_second_run_is_idempotent() {
    let mut fs = FakeFileSystem::new(vec![
        ("README.md".to_string(), "notes above\nmore text".to_string()),
        (
            "x.py".to_string(),
            "\"\"\"Description: ex\n\nLink: example.com/x\"\"\"".to_string(),
        ),
    ]);
    let fields = vec!["Description".to_string(), "Link".to_string()];
    let links = vec!["Link".to_string()];
    let first = main(&mut fs, ".".to_string(), "README.md", &fields, &links);
    assert_eq!(first, RetCode::ModifiedReadme);
    let after_first = fs.read_to_string("README.md").unwrap();
    let second = main(&mut fs, ".".to_string(), "README.md", &fields, &links);
    assert_eq!(second, RetCode::NoModification);
    assert_eq!(fs.read_to_string("README.md").unwrap(), after_first);
}

#[test]
fn pipeline_rejects_invalid_target_name() {
    let mut fs = FakeFileSystem::new(vec![
        ("INVALID.md".to_string(), "whatever".to_string()),
        ("a.py".to_string(), "\"\"\"Description: ay\"\"\"".to_string()),
    ]);
    let fields = vec!["Description".to_string()];
    let links: Vec<String> = vec![];
    let r = main(&mut fs, ".".to_string(), "INVALID.md", &fields, &links);
    assert_eq!(r, RetCode::FailedParsingFile);
    assert!(fs.operations.is_empty());
    assert_eq!(fs.read_to_string("INVALID.md").unwrap(), "whatever");
}

#[test]
fn pipeline_rejects_invalid_link_fields_before_any_io() {
    let mut fs = FakeFileSystem::new(vec![
        ("README.md".to_string(), "text".to_string()),
        ("a.py".to_string(), "\"\"\"Description: ay\"\"\"".to_string()),
    ]);
    let fields = vec!["Description".to_string()];
    let links = vec!["Link".to_string()];
    let r = main(&mut fs, ".".to_string(), "README.md", &fields, &links);
    assert_eq!(r, RetCode::InvalidLinkFields);
    assert!(fs.operations.is_empty());
    assert_eq!(fs.read_to_string("README.md").unwrap(), "text");
}

#[test]
fn pipeline_reports_missing_source_files() {
    let mut fs = FakeFileSystem::new(vec![(
        "README.md".to_string(),
        "text".to_string(),
    )]);
    let fields = vec!["Description".to_string()];
    let links: Vec<String> = vec![];
    let r = main(&mut fs, ".".to_string(), "README.md", &fields, &links);
    assert_eq!(r, RetCode::NoPyFiles);
    assert!(fs.operations.is_empty());
}

#[test]
fn pipeline_reports_missing_readme() {
    let mut fs = FakeFileSystem::new(vec![(
        "a.py".to_string(),
        "\"\"\"Description: ay\"\"\"".to_string(),
    )]);
    let fields = vec!["Description".to_string()];
    let links: Vec<String> = vec![];
    let r = main(&mut fs, ".".to_string(), "README.md", &fields, &links);
    assert_eq!(r, RetCode::FailedParsingFile);
    assert!(fs.operations.is_empty());
}

/// A storage stand-in whose writes always fail, to drive the write-failure
/// outcome.
struct ReadOnlyFileSystem {
    inner: FakeFileSystem,
}

impl FileSystem for ReadOnlyFileSystem {
    fn list_py_files(&self, path: &str) -> Vec<String> {
        self.inner.list_py_files(path)
    }

    fn read_to_string(&self, path: &str) -> Result<String, FsError> {
        self.inner.read_to_string(path)
    }

    fn write(&mut self, _path: &str, _contents: &str) -> Result<(), FsError> {
        Err(FsError::Io)
    }
}

#[test]
fn pipeline_reports_failed_write() {
    let inner = FakeFileSystem::new(vec![
        ("README.md".to_string(), "# Some readme".to_string()),
        ("a.py".to_string(), "\"\"\"Description: ay\"\"\"".to_string()),
    ]);
    let mut fs = ReadOnlyFileSystem { inner };
    let fields = vec!["Description".to_string()];
    let links: Vec<String> = vec![];
    let r = main(&mut fs, ".".to_string(), "README.md", &fields, &links);
    assert_eq!(r, RetCode::FailedToWriteReadme);
    assert_eq!(fs.inner.read_to_string("README.md").unwrap(), "# Some readme");
}
