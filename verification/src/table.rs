//! The table model: per-field values, per-file records, and the markdown
//! rendering of the generated "Scripts" table.
//!
//! A rendered table is the title line `# Scripts`, a header row naming the
//! configured fields after a leading `Name` column, an alignment row, one row
//! per record in the order given, and the closing sentinel line `::`.

use vstd::prelude::*;
use vstd::string::*;
use crate::text::{basename_of, spec_basename};

verus! {

/// Mathematical image of a `TableValue`.
pub ghost struct TableValueView {
    pub value: Seq<char>,
    pub is_link: bool,
}

/// One extracted field value; `is_link` records whether the field was
/// configured as a link field when the value was parsed.
#[derive(Debug, Clone, PartialEq, Eq)]
pub struct TableValue {
    pub value: String,
    pub is_link: bool,
}

impl View for TableValue {
    type V = TableValueView;

    open spec fn view(&self) -> TableValueView {
        TableValueView { value: self.value@, is_link: self.is_link }
    }
}

impl DeepView for TableValue {
    type V = TableValueView;

    open spec fn deep_view(&self) -> TableValueView {
        self.view()
    }
}

/// How one value renders into its table cell: link fields become a markdown
/// hyperlink, other fields their literal text.
pub open spec fn spec_entry(v: TableValueView) -> Seq<char> {
    if v.is_link {
        "[Link]("@ + v.value + ")"@
    } else {
        v.value
    }
}

impl TableValue {
    pub fn new(value: &str, is_link: bool) -> (r: Self)
        ensures
            r@.value == value@,
            r@.is_link == is_link,
    {
        TableValue { value: value.to_owned(), is_link }
    }

    pub fn to_readme_entry(&self) -> (r: String)
        ensures
            r@ == spec_entry(self@),
    {
        if self.is_link {
            let mut r = ("[Link](").to_owned();
            r.append(self.value.as_str());
            r.append(")");
            r
        } else {
            self.value.clone()
        }
    }
}

/// The field map an association list denotes; a later entry for the same
/// key overrides an earlier one.
pub open spec fn fields_map(s: Seq<(String, TableValue)>) -> Map<Seq<char>, TableValueView>
    decreases s.len(),
{
    if s.len() == 0 {
        Map::empty()
    } else {
        fields_map(s.drop_last()).insert(s.last().0@, s.last().1@)
    }
}

/// Mathematical image of a `DocInfo`.
pub ghost struct DocInfoView {
    pub path: Seq<char>,
    pub fields: Map<Seq<char>, TableValueView>,
}

/// The record extracted from one source file: its path and the field values
/// found in its docstring. Fields absent from the docstring are absent here
/// and render as empty cells.
#[derive(Debug)]
pub struct DocInfo {
    pub path: String,
    pub table_fields: Vec<(String, TableValue)>,
}

impl View for DocInfo {
    type V = DocInfoView;

    open spec fn view(&self) -> DocInfoView {
        DocInfoView { path: self.path@, fields: fields_map(self.table_fields@) }
    }
}

impl DeepView for DocInfo {
    type V = DocInfoView;

    open spec fn deep_view(&self) -> DocInfoView {
        self.view()
    }
}

/// The value of the last entry for `key`, if any: the association list read
/// as its map.
fn lookup_field<'a>(fields: &'a Vec<(String, TableValue)>, key: &String) -> (r: Option<
    &'a TableValue,
>)
    ensures
        match r {
            Option::Some(v) => fields_map(fields@).contains_key(key@) && v@ == fields_map(
                fields@,
            )[key@],
            Option::None => !fields_map(fields@).contains_key(key@),
        },
{
    let mut i = fields.len();
    proof {
        assert(fields@.take(fields@.len() as int) =~= fields@);
    }
    while i > 0
        invariant
            0 <= i <= fields@.len(),
            fields_map(fields@).contains_key(key@) == fields_map(
                fields@.take(i as int),
            ).contains_key(key@),
            fields_map(fields@).contains_key(key@) ==> fields_map(fields@)[key@] == fields_map(
                fields@.take(i as int),
            )[key@],
        decreases i,
    {
        proof {
            assert(fields@.take(i as int).drop_last() =~= fields@.take(i - 1));
            assert(fields@.take(i as int).last() == fields@[i - 1]);
        }
        if fields[i - 1].0.eq(key) {
            return Some(&fields[i - 1].1);
        }
        i = i - 1;
    }
    proof {
        assert(fields@.take(0) =~= Seq::<(String, TableValue)>::empty());
    }
    None
}

/// The cell rendered for field `f`: its entry when the record has the field,
/// the empty cell otherwise.
pub open spec fn spec_cell(info: DocInfoView, f: Seq<char>) -> Seq<char> {
    if info.fields.contains_key(f) {
        spec_entry(info.fields[f])
    } else {
        Seq::empty()
    }
}

/// The record's cells for the configured fields, in field order, joined
/// with `" | "`.
pub open spec fn spec_cells_joined(info: DocInfoView, tf: Seq<Seq<char>>) -> Seq<char>
    decreases tf.len(),
{
    if tf.len() == 0 {
        Seq::empty()
    } else if tf.len() == 1 {
        spec_cell(info, tf[0])
    } else {
        spec_cells_joined(info, tf.drop_last()) + " | "@ + spec_cell(info, tf.last())
    }
}

/// One table row: the path's basename in backquotes, then one cell per
/// configured field, in configuration order.
pub open spec fn spec_row(info: DocInfoView, tf: Seq<Seq<char>>) -> Seq<char> {
    "| `"@ + spec_basename(info.path) + "` | "@ + spec_cells_joined(info, tf) + " |"@
}

/// The configured field names joined with `" | "`.
pub open spec fn spec_fields_joined(tf: Seq<Seq<char>>) -> Seq<char>
    decreases tf.len(),
{
    if tf.len() == 0 {
        Seq::empty()
    } else if tf.len() == 1 {
        tf[0]
    } else {
        spec_fields_joined(tf.drop_last()) + " | "@ + tf.last()
    }
}

/// The header row: a `Name` column, then the configured fields.
pub open spec fn spec_header(tf: Seq<Seq<char>>) -> Seq<char> {
    "| Name | "@ + spec_fields_joined(tf) + " |"@
}

/// `n` repetitions of `|:---`.
pub open spec fn spec_sep_run(n: int) -> Seq<char>
    decreases n,
{
    if n <= 0 {
        Seq::empty()
    } else {
        spec_sep_run(n - 1) + "|:---"@
    }
}

/// The alignment row: one `:---` column for `Name` and one per field.
pub open spec fn spec_separator(tf: Seq<Seq<char>>) -> Seq<char> {
    spec_sep_run(tf.len() as int + 1) + "|"@
}

/// All rows, each followed by a newline.
pub open spec fn spec_rows_block(rows: Seq<DocInfoView>, tf: Seq<Seq<char>>) -> Seq<char>
    decreases rows.len(),
{
    if rows.len() == 0 {
        Seq::empty()
    } else {
        spec_rows_block(rows.drop_last(), tf) + spec_row(rows.last(), tf) + "\n"@
    }
}

/// The full generated table for the given records, in the given row order.
pub open spec fn spec_table(rows: Seq<DocInfoView>, tf: Seq<Seq<char>>) -> Seq<char> {
    "# Scripts\n"@ + spec_header(tf) + "\n"@ + spec_separator(tf) + "\n"@ + spec_rows_block(
        rows,
        tf,
    ) + "::"@
}

impl DocInfo {
    /// Renders this record's table row, as `spec_row` describes: missing
    /// fields still occupy their column and render as empty cells.
    pub fn to_readme(&self, table_fields: &Vec<String>) -> (r: String)
        ensures
            r@ == spec_row(self@, table_fields.deep_view()),
    {
        let ghost tfv = table_fields.deep_view();
        let bn = basename_of(self.path.as_str());
        let mut r = ("| `").to_owned();
        r.append(bn);
        r.append("` | ");
        let ghost head = "| `"@ + spec_basename(self@.path) + "` | "@;
        let mut i: usize = 0;
        proof {
            assert(r@ =~= head + spec_cells_joined(self@, tfv.take(0)));
        }
        while i < table_fields.len()
            invariant
                0 <= i <= table_fields@.len(),
                tfv == table_fields.deep_view(),
                r@ == head + spec_cells_joined(self@, tfv.take(i as int)),
            decreases table_fields@.len() - i,
        {
            proof {
                assert(tfv.take(i + 1).drop_last() =~= tfv.take(i as int));
                assert(tfv.take(i + 1).last() == tfv[i as int]);
                assert(tfv[i as int] == table_fields@[i as int]@);
            }
            if i > 0 {
                r.append(" | ");
            }
            match lookup_field(&self.table_fields, &table_fields[i]) {
                Option::Some(v) => {
                    let e = v.to_readme_entry();
                    r.append(e.as_str());
                },
                Option::None => {},
            }
            i = i + 1;
        }
        proof {
            assert(tfv.take(tfv.len() as int) =~= tfv);
        }
        r.append(" |");
        r
    }
}

/// Renders the whole table for the given records, in the given order, as
/// `spec_table` describes. Pure: equal inputs give the identical string.
pub fn create_readme(doc_infos: Vec<DocInfo>, table_fields: &Vec<String>) -> (r: String)
    ensures
        r@ == spec_table(doc_infos.deep_view(), table_fields.deep_view()),
{
    let ghost tfv = table_fields.deep_view();
    let ghost rowsv = doc_infos.deep_view();
    let mut r = ("# Scripts\n").to_owned();
    // header row
    r.append("| Name | ");
    let ghost head0 = "# Scripts\n"@ + "| Name | "@;
    let mut i: usize = 0;
    proof {
        assert(r@ =~= head0 + spec_fields_joined(tfv.take(0)));
    }
    while i < table_fields.len()
        invariant
            0 <= i <= table_fields@.len(),
            tfv == table_fields.deep_view(),
            r@ == head0 + spec_fields_joined(tfv.take(i as int)),
        decreases table_fields@.len() - i,
    {
        proof {
            assert(tfv.take(i + 1).drop_last() =~= tfv.take(i as int));
            assert(tfv.take(i + 1).last() == tfv[i as int]);
            assert(tfv[i as int] == table_fields@[i as int]@);
        }
        if i > 0 {
            r.append(" | ");
        }
        r.append(table_fields[i].as_str());
        i = i + 1;
    }
    proof {
        assert(tfv.take(tfv.len() as int) =~= tfv);
    }
    r.append(" |");
    r.append("\n");
    // alignment row
    let ghost head1 = "# Scripts\n"@ + spec_header(tfv) + "\n"@;
    proof {
        assert(r@ =~= head1);
    }
    r.append("|:---");
    let mut i: usize = 0;
    proof {
        assert(spec_sep_run(0) =~= Seq::<char>::empty());
        assert(spec_sep_run(1) =~= Seq::<char>::empty() + "|:---"@);
        assert(r@ =~= head1 + spec_sep_run(1));
    }
    while i < table_fields.len()
        invariant
            0 <= i <= table_fields@.len(),
            tfv == table_fields.deep_view(),
            r@ == head1 + spec_sep_run(i + 1),
        decreases table_fields@.len() - i,
    {
        r.append("|:---");
        i = i + 1;
    }
    r.append("|");
    r.append("\n");
    // one row per record
    let ghost head2 = head1 + spec_separator(tfv) + "\n"@;
    proof {
        assert(r@ =~= head2 + spec_rows_block(rowsv.take(0), tfv));
    }
    let mut i: usize = 0;
    while i < doc_infos.len()
        invariant
            0 <= i <= doc_infos@.len(),
            tfv == table_fields.deep_view(),
            rowsv == doc_infos.deep_view(),
            r@ == head2 + spec_rows_block(rowsv.take(i as int), tfv),
        decreases doc_infos@.len() - i,
    {
        proof {
            assert(rowsv.take(i + 1).drop_last() =~= rowsv.take(i as int));
            assert(rowsv.take(i + 1).last() == rowsv[i as int]);
            assert(rowsv[i as int] == doc_infos@[i as int]@);
        }
        let row = doc_infos[i].to_readme(table_fields);
        r.append(row.as_str());
        r.append("\n");
        i = i + 1;
    }
    proof {
        assert(rowsv.take(rowsv.len() as int) =~= rowsv);
    }
    r.append("::");
    proof {
        assert(r@ =~= spec_table(rowsv, tfv));
    }
    r
}

/// The joined cells of a row always hold one cell per configured field:
/// their length is the cells' lengths plus three characters of separator
/// between each adjacent pair, whatever the cells hold.
pub proof fn lemma_cells_joined_len(info: DocInfoView, tf: Seq<Seq<char>>)
    ensures
        tf.len() == 0 ==> spec_cells_joined(info, tf).len() == 0,
        tf.len() > 0 ==> spec_cells_joined(info, tf).len() == spec_cells_len(info, tf) + 3 * (
        tf.len() - 1),
    decreases tf.len(),
{
    reveal_strlit(" | ");
    if tf.len() == 1 {
        assert(tf.drop_last().len() == 0);
        assert(tf.last() == tf[0]);
        assert(spec_cells_len(info, tf.drop_last()) == 0);
        assert(spec_cells_len(info, tf) == spec_cell(info, tf[0]).len());
    } else if tf.len() > 1 {
        lemma_cells_joined_len(info, tf.drop_last());
    }
}

/// The summed lengths of the cells a record renders for the fields `tf`.
pub open spec fn spec_cells_len(info: DocInfoView, tf: Seq<Seq<char>>) -> int
    decreases tf.len(),
{
    if tf.len() == 0 {
        0
    } else {
        spec_cells_len(info, tf.drop_last()) + spec_cell(info, tf.last()).len()
    }
}

/// Law: a configured field the record lacks still occupies its column — the
/// cell renders empty, and the row keeps one cell per configured field with
/// the separators between them (`lemma_cells_joined_len`).
pub proof fn lemma_missing_field_renders_empty(info: DocInfoView, tf: Seq<Seq<char>>, i: int)
    requires
        0 <= i < tf.len(),
        !info.fields.contains_key(tf[i]),
    ensures
        spec_cell(info, tf[i]) == Seq::<char>::empty(),
        spec_cells_joined(info, tf).len() == spec_cells_len(info, tf) + 3 * (tf.len() - 1),
{
    assert(spec_cell(info, tf[i]) =~= Seq::<char>::empty());
    lemma_cells_joined_len(info, tf);
}

} // verus!
