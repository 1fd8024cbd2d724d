use readme_update::merge_section;

#[test]
fn merge_appends_when_no_section() {
    let table = "# Scripts\n| Name |\n|:---|\n::";
    assert_eq!(
        merge_section("# Some readme", table),
        format!("# Some readme\n\n{}", table)
    );
}

#[test]
fn merge_replaces_existing_section() {
    let table = "# Scripts\n| Name |\n|:---|\n| `a.py` |\n::";
    let doc = "intro\n# Scripts\nold line\n::\noutro";
    assert_eq!(merge_section(doc, table), format!("intro\n{}\noutro", table));
}

#[test]
fn merge_replaces_only_first_section() {
    let table = "# Scripts\nNEW\n::";
    let doc = "# Scripts\none\n::\nmiddle\n# Scripts\ntwo\n::";
    assert_eq!(
        merge_section(doc, table),
        "# Scripts\nNEW\n::\nmiddle\n# Scripts\ntwo\n::"
    );
}

#[test]
fn merge_requires_exact_marker_lines() {
    // neither `# Scriptsish` nor `::end` bound a managed section
    let table = "# Scripts\nX\n::";
    let doc = "# Scriptsish\n::end";
    assert_eq!(merge_section(doc, table), format!("{}\n\n{}", doc, table));
}

#[test]
fn merge_title_without_closing_line_appends() {
    let table = "# Scripts\nX\n::";
    let doc = "# Scripts\nno closing marker";
    assert_eq!(merge_section(doc, table), format!("{}\n\n{}", doc, table));
}

#[test]
fn merge_twice_is_idempotent_on_document_with_section() {
    let table = "# Scripts\n| Name |\n|:---|\n::";
    let doc = "above\n# Scripts\nstale\n::\nbelow";
    let once = merge_section(doc, table);
    let twice = merge_section(&once, table);
    assert_eq!(once, twice);
}

#[test]
fn merge_twice_is_idempotent_after_append() {
    let table = "# Scripts\n| Name |\n|:---|\n::";
    let doc = "no section here";
    let once = merge_section(doc, table);
    let twice = merge_section(&once, table);
    assert_eq!(once, twice);
}

#[test]
fn merge_into_empty_document_appends() {
    let table = "# Scripts\n| Name |\n|:---|\n::";
    assert_eq!(merge_section("", table), format!("\n\n{}", table));
}
