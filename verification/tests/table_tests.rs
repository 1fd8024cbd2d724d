use readme_update::{create_readme, DocInfo, TableValue};

#[test]
fn table_value_renders_literal_or_link() {
    assert_eq!(TableValue::new("plain text", false).to_readme_entry(), "plain text");
    assert_eq!(
        TableValue::new("example.com/x", true).to_readme_entry(),
        "[Link](example.com/x)"
    );
}

#[test]
fn doc_info_row_uses_basename_and_field_order() {
    let info = DocInfo {
        path: "deep/nested/tool.py".to_string(),
        table_fields: vec![
            ("Link".to_string(), TableValue::new("example.com", true)),
            ("Description".to_string(), TableValue::new("a tool", false)),
        ],
    };
    let fields = vec!["Description".to_string(), "Link".to_string()];
    assert_eq!(
        info.to_readme(&fields),
        "| `tool.py` | a tool | [Link](example.com) |"
    );
}

#[test]
fn doc_info_missing_field_renders_empty_cell() {
    let info = DocInfo {
        path: "tool.py".to_string(),
        table_fields: vec![("Description".to_string(), TableValue::new("a tool", false))],
    };
    let fields = vec![
        "Description".to_string(),
        "Link".to_string(),
        "Owner".to_string(),
    ];
    assert_eq!(info.to_readme(&fields), "| `tool.py` | a tool |  |  |");
}

#[test]
fn doc_info_last_entry_for_a_field_wins() {
    let info = DocInfo {
        path: "tool.py".to_string(),
        table_fields: vec![
            ("Description".to_string(), TableValue::new("older", false)),
            ("Description".to_string(), TableValue::new("newer", false)),
        ],
    };
    let fields = vec!["Description".to_string()];
    assert_eq!(info.to_readme(&fields), "| `tool.py` | newer |");
}

#[test]
fn create_readme_without_records() {
    let fields = vec!["Description".to_string()];
    assert_eq!(
        create_readme(vec![], &fields),
        "# Scripts\n| Name | Description |\n|:---|:---|\n::"
    );
}

#[test]
fn create_readme_without_fields() {
    let infos = vec![DocInfo { path: "a.py".to_string(), table_fields: vec![] }];
    let fields: Vec<String> = vec![];
    assert_eq!(create_readme(infos, &fields), "# Scripts\n| Name |  |\n|:---|\n| `a.py` |  |\n::");
}
