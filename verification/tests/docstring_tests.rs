use readme_update::extract_module_docstring;

#[test]
fn docstring_basic() {
    assert_eq!(
        extract_module_docstring("\"\"\"hello docs\"\"\"\nprint(1)\n"),
        "hello docs"
    );
}

#[test]
fn docstring_multiline() {
    assert_eq!(
        extract_module_docstring("\"\"\"line one\nline two\n\"\"\"\ncode"),
        "line one\nline two\n"
    );
}

#[test]
fn docstring_with_indent_and_raw_marker() {
    assert_eq!(extract_module_docstring("  r\"\"\"raw docs\"\"\""), "raw docs");
    assert_eq!(extract_module_docstring("\tU\"\"\"uni docs\"\"\""), "uni docs");
}

#[test]
fn docstring_must_open_the_file() {
    assert_eq!(extract_module_docstring("x = 1\n\"\"\"late docs\"\"\""), "");
}

#[test]
fn docstring_unclosed_yields_empty() {
    assert_eq!(extract_module_docstring("\"\"\"never closed"), "");
}

#[test]
fn docstring_stops_at_first_closing_quotes() {
    assert_eq!(
        extract_module_docstring("\"\"\"first\"\"\"\n\"\"\"second\"\"\""),
        "first"
    );
}

#[test]
fn docstring_empty_input() {
    assert_eq!(extract_module_docstring(""), "");
    assert_eq!(extract_module_docstring("plain code only"), "");
}

#[test]
fn docstring_marker_without_quotes_is_code() {
    assert_eq!(extract_module_docstring("run()"), "");
    assert_eq!(extract_module_docstring("ru\"\"\"docs\"\"\""), "");
}
