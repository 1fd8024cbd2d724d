//! Maintains a generated "Scripts" table inside a documentation file.
//!
//! The library extracts the leading triple-quoted docstring from each source
//! file, scans it for `Field: value` lines, renders the collected records as a
//! markdown table sorted by path, and splices that table into the managed
//! `# Scripts` .. `::` section of a target document, appending the section if
//! the document does not have one yet. The document is written back only when
//! its text changed.

pub mod adapters;
pub mod docstring;
pub mod domain;
pub mod merge;
pub mod parse;
pub mod sort;
pub mod table;
pub mod text;

pub use adapters::{FakeFileSystem, FileSystem, FsError};
pub use docstring::extract_module_docstring;
pub use domain::{
    PyFile, ReadMe, RetCode, extract_docinfo, extract_pyfiles, generate_scripts_docs, main,
    update_readme, validate_link_fields,
};
pub use merge::merge_section;
pub use table::{DocInfo, TableValue, create_readme};
