use readme_update::{generate_scripts_docs, PyFile};

#[test]
fn domain_test_generate_scripts_docs() {
    let py_files = vec![
        PyFile::new(
            "some/python/file1.py",
            "",
            "Description: This is a description\n\nLink: some_link.com/link1",
        ),
        PyFile::new(
            "some/python/file3.py",
            "",
            "missing description start\n\nLink: some_other_link.com/link2",
        ),
        PyFile::new(
            "some/python/file2.py",
            "",
            "Description: This is another description\n\n",
        ),
    ];

    let expected_readme = [
        "# Scripts",
        "| Name | Description | Link |",
        "|:---|:---|:---|",
        "| `file1.py` | This is a description | [Link](some_link.com/link1) |",
        "| `file2.py` | This is another description |  |",
        "| `file3.py` |  | [Link](some_other_link.com/link2) |",
        "::",
    ]
    .join("\n");

    assert_eq!(
        generate_scripts_docs(
            py_files,
            &vec!["Description".to_string(), "Link".to_string()],
            &vec!["Link".to_string()]
        ),
        expected_readme
    );
}

#[test]
fn lib_test_generate_scripts_docs() {
    let py_files = vec![
        PyFile::new(
            "some/python/file1.py",
            "",
            "Description: This is a description\n\nLink: some_link.com/link1",
        ),
        PyFile::new(
            "some/python/file3.py",
            "",
            "missing description start\n\nLink: some_other_link.com/link2",
        ),
        PyFile::new(
            "some/python/file2.py",
            "",
            "Description: This is another description\n\n",
        ),
    ];

    let expected_readme = [
        "# Scripts",
        "| Name | Description | Link |",
        "|:---|:---|:---|",
        "| `file1.py` | This is a description | [Link](some_link.com/link1) |",
        "| `file2.py` | This is another description |  |",
        "| `file3.py` |  | [Link](some_other_link.com/link2) |",
        "::",
    ]
    .join("\n");

    assert_eq!(
        generate_scripts_docs(
            py_files,
            &vec!["Description".to_string(), "Link".to_string()],
            &vec!["Link".to_string()]
        ),
        expected_readme
    );
}

#[test]
fn generate_rows_sorted_regardless_of_input_order() {
    let fields = vec!["Description".to_string()];
    let links: Vec<String> = vec![];
    let order_a = vec![
        PyFile::new("b.py", "", "Description: bee"),
        PyFile::new("a.py", "", "Description: ay"),
        PyFile::new("c.py", "", "Description: sea"),
    ];
    let order_b = vec![
        PyFile::new("c.py", "", "Description: sea"),
        PyFile::new("b.py", "", "Description: bee"),
        PyFile::new("a.py", "", "Description: ay"),
    ];
    let out_a = generate_scripts_docs(order_a, &fields, &links);
    let out_b = generate_scripts_docs(order_b, &fields, &links);
    assert_eq!(out_a, out_b);
    assert_eq!(
        out_a,
        [
            "# Scripts",
            "| Name | Description |",
            "|:---|:---|",
            "| `a.py` | ay |",
            "| `b.py` | bee |",
            "| `c.py` | sea |",
            "::",
        ]
        .join("\n")
    );
}

#[test]
fn generate_last_write_wins() {
    let fields = vec!["Description".to_string()];
    let links: Vec<String> = vec![];
    let py_files = vec![PyFile::new(
        "one.py",
        "",
        "Description: first value\nsome other text\nDescription: second value",
    )];
    let out = generate_scripts_docs(py_files, &fields, &links);
    assert_eq!(
        out,
        [
            "# Scripts",
            "| Name | Description |",
            "|:---|:---|",
            "| `one.py` | second value |",
            "::",
        ]
        .join("\n")
    );
}

#[test]
fn generate_first_field_in_list_order_claims_line() {
    // the line matches both configured prefixes; only the first field in
    // list order is assigned
    let fields = vec!["A".to_string(), "A: B".to_string()];
    let links: Vec<String> = vec![];
    let py_files = vec![PyFile::new("one.py", "", "A: B: v")];
    let out = generate_scripts_docs(py_files, &fields, &links);
    assert_eq!(
        out,
        [
            "# Scripts",
            "| Name | A | A: B |",
            "|:---|:---|:---|",
            "| `one.py` | B: v |  |",
            "::",
        ]
        .join("\n")
    );
}

#[test]
fn generate_leading_whitespace_trimmed() {
    let fields = vec!["Description".to_string()];
    let links: Vec<String> = vec![];
    let py_files = vec![PyFile::new("one.py", "", "\t  Description: indented")];
    let out = generate_scripts_docs(py_files, &fields, &links);
    assert_eq!(
        out,
        [
            "# Scripts",
            "| Name | Description |",
            "|:---|:---|",
            "| `one.py` | indented |",
            "::",
        ]
        .join("\n")
    );
}

#[test]
fn generate_empty_docstring_renders_empty_cells() {
    let fields = vec!["Description".to_string(), "Link".to_string()];
    let links = vec!["Link".to_string()];
    let py_files = vec![readme_update::PyFile::new("bare.py", "", "")];
    let out = readme_update::generate_scripts_docs(py_files, &fields, &links);
    assert_eq!(
        out,
        [
            "# Scripts",
            "| Name | Description | Link |",
            "|:---|:---|:---|",
            "| `bare.py` |  |  |",
            "::",
        ]
        .join("\n")
    );
}

#[test]
fn generate_handles_crlf_docstring_lines() {
    let fields = vec!["Description".to_string()];
    let links: Vec<String> = vec![];
    let py_files = vec![readme_update::PyFile::new(
        "one.py",
        "",
        "Description: windows line\r\nmore text\r\n",
    )];
    let out = readme_update::generate_scripts_docs(py_files, &fields, &links);
    assert_eq!(
        out,
        [
            "# Scripts",
            "| Name | Description |",
            "|:---|:---|",
            "| `one.py` | windows line |",
            "::",
        ]
        .join("\n")
    );
}
