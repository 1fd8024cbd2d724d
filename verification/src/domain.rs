//! The pipeline: validate the field configuration, read the target document,
//! gather the source files, extract and sort their records, render the table,
//! merge it into the document, and write the document back only when its text
//! changed.

use vstd::prelude::*;
use vstd::string::*;
use crate::adapters::{FileSystem, FsError};
use crate::docstring::{extract_module_docstring, spec_docstring};
use crate::merge::{
    fields_clean, find_marker_line, has_managed_region, lemma_merge_idempotent, lemma_table_wf,
    merge_section, row_clean, spec_merge, table_wf, title_marker,
};
use crate::parse::{lemma_parse_values_nf, parse_doc_fields, spec_parse_fields};
use crate::sort::{
    distinct_paths, lemma_map_values_multiset, lemma_sorted_rows_unique, sort_doc_infos,
    sorted_by_path,
};
use crate::table::{DocInfo, DocInfoView, create_readme, spec_cell, spec_entry, spec_table};
use crate::text::{
    contains_ignore_case, contains_lower, eq_lower, lemma_lines_newline_free, lemma_nf_concat,
    lower_seq, newline_free, spec_basename, spec_lines,
};

verus! {

/// What one run of the pipeline reports.
#[derive(Debug, PartialEq, Eq, Structural)]
pub enum RetCode {
    /// The document already held the generated table; nothing was written.
    NoModification,
    /// The merged document differed and was written back.
    ModifiedReadme,
    /// No candidate source files were found under the root.
    NoPyFiles,
    /// The target document could not be read, or its name is not acceptable.
    FailedParsingFile,
    /// The merged document could not be written back.
    FailedToWriteReadme,
    /// A configured link field is not among the table fields.
    InvalidLinkFields,
}

/// Mathematical image of a `PyFile`.
pub ghost struct PyFileView {
    pub path: Seq<char>,
    pub code: Seq<char>,
    pub docstring: Seq<char>,
}

/// One successfully read source file: its path, raw text, and the docstring
/// taken from the text's start.
#[derive(Debug)]
pub struct PyFile {
    pub path: String,
    pub code: String,
    pub docstring: String,
}

impl View for PyFile {
    type V = PyFileView;

    open spec fn view(&self) -> PyFileView {
        PyFileView { path: self.path@, code: self.code@, docstring: self.docstring@ }
    }
}

impl DeepView for PyFile {
    type V = PyFileView;

    open spec fn deep_view(&self) -> PyFileView {
        self.view()
    }
}

impl PyFile {
    pub fn new(path: &str, code: &str, docstring: &str) -> (r: Self)
        ensures
            r@.path == path@,
            r@.code == code@,
            r@.docstring == docstring@,
    {
        PyFile { path: path.to_owned(), code: code.to_owned(), docstring: docstring.to_owned() }
    }
}

/// An acceptable target document path: its file name contains `readme` in any
/// letter case, and its extension is `md`, `rst` or `txt` in any letter case.
pub open spec fn spec_valid_readme_path(p: Seq<char>) -> bool {
    &&& contains_lower(spec_basename(p), "readme"@)
    &&& match crate::adapters::spec_extension(p) {
        Option::Some(e) => lower_seq(e) == "md"@ || lower_seq(e) == "rst"@ || lower_seq(e)
            == "txt"@,
        Option::None => false,
    }
}

/// Decides `spec_valid_readme_path`.
pub fn is_valid_readme_path(p: &str) -> (r: bool)
    ensures
        r == spec_valid_readme_path(p@),
{
    let bn = crate::text::basename_of(p);
    if !contains_ignore_case(bn, "readme") {
        return false;
    }
    match crate::adapters::extension_of(p) {
        Option::Some(e) => eq_lower(e, "md") || eq_lower(e, "rst") || eq_lower(e, "txt"),
        Option::None => false,
    }
}

/// The target document's text.
#[derive(Debug, PartialEq, Eq)]
pub struct ReadMe(pub String);

impl View for ReadMe {
    type V = Seq<char>;

    open spec fn view(&self) -> Seq<char> {
        self.0@
    }
}

impl ReadMe {
    /// Validates the document's name and extension and reads it. An
    /// unacceptable path is refused before storage is touched, and is the
    /// one and only cause of an `InvalidInput` error.
    pub fn parse<FS: FileSystem>(file_sys: &FS, path: &str) -> (r: Result<ReadMe, FsError>)
        ensures
            r is Ok ==> spec_valid_readme_path(path@) && file_sys.files().contains_key(path@)
                && r->Ok_0@ == file_sys.files()[path@],
            r == Result::<ReadMe, FsError>::Err(FsError::InvalidInput) <==> !spec_valid_readme_path(
                path@,
            ),
    {
        if is_valid_readme_path(path) {
            match file_sys.read_to_string(path) {
                Result::Ok(s) => Result::Ok(ReadMe(s)),
                Result::Err(e) => Result::Err(e),
            }
        } else {
            Result::Err(FsError::InvalidInput)
        }
    }

    /// Writes the document's text back whole.
    pub fn write<FS: FileSystem>(&self, file_sys: &mut FS, path: &str) -> (r: Result<(), FsError>)
        ensures
            r is Ok ==> final(file_sys).files() == old(file_sys).files().insert(path@, self@),
            r is Err ==> final(file_sys).files() == old(file_sys).files(),
    {
        file_sys.write(path, self.0.as_str())
    }
}

/// The record a successfully read file contributes.
pub open spec fn rec_ok(files: Map<Seq<char>, Seq<char>>, pv: PyFileView) -> bool {
    &&& files.contains_key(pv.path)
    &&& pv.code == files[pv.path]
    &&& pv.docstring == spec_docstring(pv.code)
}

/// Every record was read out of `files`.
pub open spec fn recs_from(files: Map<Seq<char>, Seq<char>>, recs: Seq<PyFileView>) -> bool {
    forall|i: int| 0 <= i < recs.len() ==> rec_ok(files, #[trigger] recs[i])
}

/// The records take their paths from the list positions `ix`: one position
/// per record, strictly ascending, so no position contributes twice and the
/// list order is kept.
pub open spec fn selects(recs: Seq<PyFileView>, paths: Seq<Seq<char>>, ix: Seq<int>) -> bool {
    &&& ix.len() == recs.len()
    &&& forall|k: int| 0 <= k < ix.len() ==> 0 <= #[trigger] ix[k] < paths.len()
    &&& forall|k: int| 0 < k < ix.len() ==> ix[k - 1] < #[trigger] ix[k]
    &&& forall|k: int| 0 <= k < recs.len() ==> #[trigger] recs[k].path == paths[ix[k]]
}

/// Some strictly ascending selection of list positions carries the records'
/// paths.
pub open spec fn selection_of(recs: Seq<PyFileView>, paths: Seq<Seq<char>>) -> bool {
    exists|ix: Seq<int>| #[trigger] selects(recs, paths, ix)
}

/// A strictly ascending selection is monotone between any two ranks.
proof fn lemma_selects_mono(ix: Seq<int>, i: int, j: int)
    requires
        0 <= i < j < ix.len(),
        forall|k: int| 0 < k < ix.len() ==> ix[k - 1] < #[trigger] ix[k],
    ensures
        ix[i] < ix[j],
    decreases j - i,
{
    if i + 1 < j {
        lemma_selects_mono(ix, i, j - 1);
    }
}

/// Pairwise distinct listed paths give pairwise distinct record paths: the
/// records draw their paths from distinct list positions.
pub proof fn lemma_selection_distinct_rec_paths(recs: Seq<PyFileView>, paths: Seq<Seq<char>>)
    requires
        selection_of(recs, paths),
        forall|i: int, j: int| 0 <= i < j < paths.len() ==> paths[i] != paths[j],
    ensures
        distinct_rec_paths(recs),
{
    let ix = choose|ix: Seq<int>| #[trigger] selects(recs, paths, ix);
    assert forall|i: int, j: int| 0 <= i < j < recs.len() implies recs[i].path
        != recs[j].path by {
        lemma_selects_mono(ix, i, j);
        assert(recs[i].path == paths[ix[i]]);
        assert(recs[j].path == paths[ix[j]]);
        assert(paths[ix[i]] != paths[ix[j]]);
    }
}

/// Reads each listed file and pairs it with its docstring; files that fail to
/// read are skipped, never fatal to the run. Every returned record carries a
/// listed path, the contents the system holds there, and that text's
/// docstring; the records come from pairwise distinct list positions, in
/// list order.
pub fn extract_pyfiles<FS: FileSystem>(file_sys: &FS, paths: Vec<String>) -> (r: Vec<PyFile>)
    ensures
        recs_from(file_sys.files(), r.deep_view()),
        selection_of(r.deep_view(), paths.deep_view()),
        r.deep_view().len() <= paths.deep_view().len(),
        forall|i: int|
            0 <= i < r.deep_view().len() ==> paths.deep_view().contains(
                #[trigger] r.deep_view()[i].path,
            ),
{
    let mut r: Vec<PyFile> = Vec::new();
    let mut i: usize = 0;
    let ghost mut ixs: Seq<int> = Seq::empty();
    while i < paths.len()
        invariant
            0 <= i <= paths@.len(),
            recs_from(file_sys.files(), r.deep_view()),
            selects(r.deep_view(), paths.deep_view(), ixs),
            forall|k: int| 0 <= k < ixs.len() ==> #[trigger] ixs[k] < i,
            forall|k: int|
                0 <= k < r.deep_view().len() ==> paths.deep_view().contains(
                    #[trigger] r.deep_view()[k].path,
                ),
        decreases paths@.len() - i,
    {
        let ghost old_r = r.deep_view();
        let ghost old_ixs = ixs;
        match file_sys.read_to_string(paths[i].as_str()) {
            Result::Ok(code) => {
                let docstring = extract_module_docstring(code.as_str());
                let f = PyFile::new(paths[i].as_str(), code.as_str(), docstring.as_str());
                r.push(f);
                proof {
                    ixs = ixs.push(i as int);
                    assert(r.deep_view() =~= old_r.push(f@));
                    assert(paths.deep_view()[i as int] == paths@[i as int]@);
                    assert(paths.deep_view().contains(f@.path));
                    assert forall|k: int| 0 < k < ixs.len() implies ixs[k - 1]
                        < #[trigger] ixs[k] by {
                        if k < ixs.len() - 1 {
                            assert(ixs[k] == old_ixs[k] && ixs[k - 1] == old_ixs[k - 1]);
                        } else {
                            assert(ixs[k] == i as int && ixs[k - 1] == old_ixs[k - 1]);
                        }
                    }
                    assert(selects(r.deep_view(), paths.deep_view(), ixs));
                }
            },
            Result::Err(_) => {},
        }
        i = i + 1;
    }
    proof {
        assert(r.deep_view().len() == ixs.len());
        if ixs.len() > 0 {
            assert(0 <= ixs[0] < paths.deep_view().len());
        }
        lemma_selects_len(r.deep_view(), paths.deep_view(), ixs);
        assert(selection_of(r.deep_view(), paths.deep_view()));
    }
    r
}

/// A strictly ascending selection never holds more positions than the list.
proof fn lemma_selects_len(recs: Seq<PyFileView>, paths: Seq<Seq<char>>, ix: Seq<int>)
    requires
        selects(recs, paths, ix),
    ensures
        recs.len() <= paths.len(),
    decreases ix.len(),
{
    if ix.len() > 0 {
        // each position is at least its rank, so the last is at least len-1
        assert forall|k: int| 0 <= k < ix.len() implies k <= #[trigger] ix[k] by {
            lemma_selects_rank(ix, k);
        }
        assert(ix.len() - 1 <= ix[ix.len() - 1] < paths.len());
    }
}

/// In a strictly ascending sequence of positions, the entry at rank `k` is
/// at least `k`.
proof fn lemma_selects_rank(ix: Seq<int>, k: int)
    requires
        0 <= k < ix.len(),
        forall|k2: int| 0 < k2 < ix.len() ==> ix[k2 - 1] < #[trigger] ix[k2],
        forall|k2: int| 0 <= k2 < ix.len() ==> 0 <= #[trigger] ix[k2],
    ensures
        k <= ix[k],
    decreases k,
{
    if k > 0 {
        lemma_selects_rank(ix, k - 1);
        assert(ix[k - 1] < ix[k]);
    }
}

/// The record one file yields for the configured fields.
pub open spec fn spec_info(pv: PyFileView, tf: Seq<Seq<char>>, lf: Seq<Seq<char>>) -> DocInfoView {
    DocInfoView { path: pv.path, fields: spec_parse_fields(pv.docstring, tf, lf) }
}

/// The records a file sequence yields, in its order.
pub open spec fn infos_of(recs: Seq<PyFileView>, tf: Seq<Seq<char>>, lf: Seq<Seq<char>>) -> Seq<
    DocInfoView,
> {
    recs.map_values(|pv: PyFileView| spec_info(pv, tf, lf))
}

/// Extracts every file's record and sorts the records by path: the result
/// holds exactly the files' records, in ascending path order.
pub fn extract_docinfo(
    py_files: Vec<PyFile>,
    table_fields: &Vec<String>,
    link_fields: &Vec<String>,
) -> (r: Vec<DocInfo>)
    ensures
        sorted_by_path(r.deep_view()),
        r.deep_view().to_multiset() == infos_of(
            py_files.deep_view(),
            table_fields.deep_view(),
            link_fields.deep_view(),
        ).to_multiset(),
{
    let ghost tfv = table_fields.deep_view();
    let ghost lfv = link_fields.deep_view();
    let ghost recs = py_files.deep_view();
    let mut infos: Vec<DocInfo> = Vec::new();
    let mut i: usize = 0;
    proof {
        assert(infos.deep_view() =~= infos_of(recs.take(0), tfv, lfv));
    }
    while i < py_files.len()
        invariant
            0 <= i <= py_files@.len(),
            recs == py_files.deep_view(),
            tfv == table_fields.deep_view(),
            lfv == link_fields.deep_view(),
            infos.deep_view() == infos_of(recs.take(i as int), tfv, lfv),
        decreases py_files@.len() - i,
    {
        let ghost old_infos = infos.deep_view();
        let f = &py_files[i];
        let fields = parse_doc_fields(f.docstring.as_str(), table_fields, link_fields);
        let info = DocInfo { path: f.path.clone(), table_fields: fields };
        proof {
            assert(info@ == spec_info(recs[i as int], tfv, lfv));
        }
        infos.push(info);
        proof {
            assert(infos.deep_view() =~= old_infos.push(spec_info(recs[i as int], tfv, lfv)));
            assert(infos.deep_view() =~= infos_of(recs.take(i + 1), tfv, lfv));
        }
        i = i + 1;
    }
    proof {
        assert(recs.take(recs.len() as int) =~= recs);
    }
    sort_doc_infos(infos)
}

/// `t` is a table the pipeline can generate from the records `recs`: the
/// rendering, in path order, of exactly the records' extractions.
pub open spec fn table_for(
    recs: Seq<PyFileView>,
    tf: Seq<Seq<char>>,
    lf: Seq<Seq<char>>,
    t: Seq<char>,
) -> bool {
    exists|rows: Seq<DocInfoView>|
        sorted_by_path(rows) && rows.to_multiset() == infos_of(recs, tf, lf).to_multiset() && t
            == spec_table(rows, tf)
}

/// Extracts, sorts and renders: the returned string is the table for the
/// given files under the given configuration.
pub fn generate_scripts_docs(
    py_files: Vec<PyFile>,
    table_fields: &Vec<String>,
    link_fields: &Vec<String>,
) -> (r: String)
    ensures
        table_for(
            py_files.deep_view(),
            table_fields.deep_view(),
            link_fields.deep_view(),
            r@,
        ),
{
    let ghost recs = py_files.deep_view();
    let ghost tfv = table_fields.deep_view();
    let ghost lfv = link_fields.deep_view();
    let infos = extract_docinfo(py_files, table_fields, link_fields);
    let ghost rows = infos.deep_view();
    let r = create_readme(infos, table_fields);
    proof {
        assert(sorted_by_path(rows) && rows.to_multiset() == infos_of(recs, tfv, lfv).to_multiset()
            && r@ == spec_table(rows, tfv));
    }
    r
}

/// Replaces the document's managed section with the generated table, or
/// appends the table when the document has no section yet.
pub fn update_readme(readme: &ReadMe, scripts_docs: String) -> (r: ReadMe)
    ensures
        r@ == spec_merge(readme@, scripts_docs@),
{
    ReadMe(merge_section(readme.0.as_str(), scripts_docs.as_str()))
}

/// Every configured link field is one of the table fields.
pub open spec fn spec_links_valid(tf: Seq<Seq<char>>, lf: Seq<Seq<char>>) -> bool {
    forall|i: int| 0 <= i < lf.len() ==> tf.contains(#[trigger] lf[i])
}

/// Decides `spec_links_valid`.
pub fn validate_link_fields(table_fields: &Vec<String>, link_fields: &Vec<String>) -> (r: bool)
    ensures
        r == spec_links_valid(table_fields.deep_view(), link_fields.deep_view()),
{
    let ghost tfv = table_fields.deep_view();
    let ghost lfv = link_fields.deep_view();
    let mut i: usize = 0;
    while i < link_fields.len()
        invariant
            0 <= i <= link_fields@.len(),
            tfv == table_fields.deep_view(),
            lfv == link_fields.deep_view(),
            forall|j: int| 0 <= j < i ==> tfv.contains(#[trigger] lfv[j]),
        decreases link_fields@.len() - i,
    {
        if !crate::parse::contains_string(table_fields, &link_fields[i]) {
            proof {
                assert(lfv[i as int] == link_fields@[i as int]@);
            }
            return false;
        }
        i = i + 1;
    }
    true
}

/// Every record names a candidate source file.
pub open spec fn recs_py(recs: Seq<PyFileView>) -> bool {
    forall|i: int| 0 <= i < recs.len() ==> crate::adapters::has_py_ext(#[trigger] recs[i].path)
}

/// The run found the table already in place: some readable candidate records
/// render, sorted, to a table whose merge leaves the document as it is.
pub open spec fn run_not_modified(
    files: Map<Seq<char>, Seq<char>>,
    p: Seq<char>,
    tf: Seq<Seq<char>>,
    lf: Seq<Seq<char>>,
) -> bool {
    exists|recs: Seq<PyFileView>, t: Seq<char>|
        recs_from(files, recs) && recs_py(recs) && #[trigger] table_for(recs, tf, lf, t)
            && spec_merge(files[p], t) == files[p]
}

/// The run rewrote the document: `newfiles` is the old file map with the
/// merged document stored at `p`.
pub open spec fn run_modified_to(
    files: Map<Seq<char>, Seq<char>>,
    p: Seq<char>,
    tf: Seq<Seq<char>>,
    lf: Seq<Seq<char>>,
    newfiles: Map<Seq<char>, Seq<char>>,
) -> bool {
    exists|recs: Seq<PyFileView>, t: Seq<char>|
        recs_from(files, recs) && recs_py(recs) && #[trigger] table_for(recs, tf, lf, t)
            && spec_merge(files[p], t) != files[p] && newfiles == files.insert(
            p,
            spec_merge(files[p], t),
        )
}

/// One run of the whole pipeline over the given file system.
///
/// The configuration is checked before anything else; an invalid target path
/// is refused before any file is listed or read; the document is written back
/// only when the merge changed its text, and then exactly once.
pub fn main<FS: FileSystem>(
    file_sys: &mut FS,
    scripts_root: String,
    readme_path: &str,
    table_fields: &Vec<String>,
    link_fields: &Vec<String>,
) -> (r: RetCode)
    ensures
        (r == RetCode::InvalidLinkFields <==> !spec_links_valid(
            table_fields.deep_view(),
            link_fields.deep_view(),
        )),
        r == RetCode::InvalidLinkFields ==> final(file_sys).files() == old(file_sys).files(),
        spec_links_valid(table_fields.deep_view(), link_fields.deep_view())
            && !spec_valid_readme_path(readme_path@) ==> r == RetCode::FailedParsingFile,
        r == RetCode::FailedParsingFile ==> final(file_sys).files() == old(file_sys).files(),
        r == RetCode::NoPyFiles ==> final(file_sys).files() == old(file_sys).files(),
        r == RetCode::FailedToWriteReadme ==> final(file_sys).files() == old(file_sys).files(),
        r == RetCode::NoModification ==> final(file_sys).files() == old(file_sys).files()
            && spec_valid_readme_path(readme_path@) && old(file_sys).files().contains_key(
            readme_path@,
        ) && run_not_modified(
            old(file_sys).files(),
            readme_path@,
            table_fields.deep_view(),
            link_fields.deep_view(),
        ),
        r == RetCode::ModifiedReadme ==> spec_valid_readme_path(readme_path@) && old(
            file_sys,
        ).files().contains_key(readme_path@) && run_modified_to(
            old(file_sys).files(),
            readme_path@,
            table_fields.deep_view(),
            link_fields.deep_view(),
            final(file_sys).files(),
        ),
        spec_links_valid(table_fields.deep_view(), link_fields.deep_view()) && (forall|
            q: Seq<char>,
        |
            old(file_sys).files().contains_key(q) ==> !crate::adapters::has_py_ext(q))
            ==> r == RetCode::FailedParsingFile || r == RetCode::NoPyFiles,
{
    let ghost f0 = file_sys.files();
    let ghost tfv = table_fields.deep_view();
    let ghost lfv = link_fields.deep_view();
    if !validate_link_fields(table_fields, link_fields) {
        return RetCode::InvalidLinkFields;
    }
    let readme = match ReadMe::parse(&*file_sys, readme_path) {
        Result::Ok(rm) => rm,
        Result::Err(_) => {
            return RetCode::FailedParsingFile;
        },
    };
    let paths = file_sys.list_py_files(scripts_root.as_str());
    if paths.len() == 0 {
        return RetCode::NoPyFiles;
    }
    let ghost pathsv = paths.deep_view();
    proof {
        // the run goes on only when the map holds some candidate source file
        assert(f0.contains_key(pathsv[0]) && crate::adapters::has_py_ext(pathsv[0]));
    }
    let py_files = extract_pyfiles(&*file_sys, paths);
    let ghost recs = py_files.deep_view();
    proof {
        assert forall|i: int| 0 <= i < recs.len() implies crate::adapters::has_py_ext(
            #[trigger] recs[i].path,
        ) by {
            assert(pathsv.contains(recs[i].path));
            let j = choose|j: int| 0 <= j < pathsv.len() && pathsv[j] == recs[i].path;
            assert(crate::adapters::has_py_ext(pathsv[j]));
        }
        assert(recs_py(recs));
    }
    let scripts_docs = generate_scripts_docs(py_files, table_fields, link_fields);
    let ghost t = scripts_docs@;
    let modified = update_readme(&readme, scripts_docs);
    if !modified.0.eq(&readme.0) {
        match modified.write(file_sys, readme_path) {
            Result::Ok(_) => {
                proof {
                    assert(recs_from(f0, recs) && recs_py(recs) && table_for(recs, tfv, lfv, t)
                        && spec_merge(f0[readme_path@], t) != f0[readme_path@]);
                    assert(final(file_sys).files() == f0.insert(
                        readme_path@,
                        spec_merge(f0[readme_path@], t),
                    ));
                }
                RetCode::ModifiedReadme
            },
            Result::Err(_) => RetCode::FailedToWriteReadme,
        }
    } else {
        proof {
            assert(recs_from(f0, recs) && recs_py(recs) && table_for(recs, tfv, lfv, t)
                && spec_merge(f0[readme_path@], t) == f0[readme_path@]);
        }
        RetCode::NoModification
    }
}

/// A parsed record renders a clean row: its cells are cut from docstring
/// lines, which hold no line break, so only the path's basename matters.
pub proof fn lemma_parsed_row_clean(pv: PyFileView, tf: Seq<Seq<char>>, lf: Seq<Seq<char>>)
    requires
        newline_free(spec_basename(pv.path)),
    ensures
        row_clean(spec_info(pv, tf, lf), tf),
{
    let lines = spec_lines(pv.docstring);
    lemma_lines_newline_free(pv.docstring);
    lemma_parse_values_nf(lines, tf, lf, lines.len() as int);
    let info = spec_info(pv, tf, lf);
    assert forall|k: int| 0 <= k < tf.len() implies newline_free(
        #[trigger] spec_cell(info, tf[k]),
    ) by {
        if info.fields.contains_key(tf[k]) {
            let v = info.fields[tf[k]];
            assert(newline_free(v.value));
            if v.is_link {
                reveal_strlit("[Link](");
                reveal_strlit(")");
                assert(newline_free("[Link]("@));
                assert(newline_free(")"@));
                lemma_nf_concat("[Link]("@, v.value);
                lemma_nf_concat("[Link]("@ + v.value, ")"@);
                assert(spec_cell(info, tf[k]) == spec_entry(v));
            }
        } else {
            assert(spec_cell(info, tf[k]) =~= Seq::<char>::empty());
        }
    }
}

/// Law (idempotence): one more merge of the same generated table changes
/// nothing. It holds of every document that has a managed section or no
/// `# Scripts` line at all, whenever the configured field names and the
/// records' basenames and cells are free of line breaks; combined with
/// `main`'s contract, a second run over unchanged files reads the first run's
/// output, merges to the very same text, and reports no modification.
pub proof fn lemma_pipeline_idempotent(doc: Seq<char>, rows: Seq<DocInfoView>, tf: Seq<Seq<char>>)
    requires
        fields_clean(tf),
        forall|i: int| 0 <= i < rows.len() ==> row_clean(#[trigger] rows[i], tf),
        has_managed_region(doc) || find_marker_line(doc, title_marker(), 0) == doc.len(),
    ensures
        spec_merge(spec_merge(doc, spec_table(rows, tf)), spec_table(rows, tf)) == spec_merge(
            doc,
            spec_table(rows, tf),
        ),
{
    lemma_table_wf(rows, tf);
    lemma_merge_idempotent(doc, spec_table(rows, tf));
}

/// No two records name the same path.
pub open spec fn distinct_rec_paths(recs: Seq<PyFileView>) -> bool {
    forall|i: int, j: int| 0 <= i < j < recs.len() ==> recs[i].path != recs[j].path
}

/// A permutation of records with pairwise distinct paths keeps its rows'
/// paths pairwise distinct.
proof fn lemma_distinct_paths_transfer(rows: Seq<DocInfoView>, infos: Seq<DocInfoView>)
    requires
        rows.to_multiset() == infos.to_multiset(),
        distinct_paths(infos),
    ensures
        distinct_paths(rows),
    decreases rows.len(),
{
    broadcast use {vstd::seq_lib::group_to_multiset_ensures, vstd::multiset::group_multiset_axioms};

    assert(rows.len() == rows.to_multiset().len());
    assert(infos.len() == infos.to_multiset().len());
    if rows.len() > 0 {
        let x = rows[0];
        assert(rows.to_multiset().contains(x)) by {
            assert(rows.contains(x));
        }
        assert(infos.contains(x));
        let a = choose|a: int| 0 <= a < infos.len() && infos[a] == x;
        let rt = rows.drop_first();
        let it = infos.remove(a);
        assert(rows.remove(0) =~= rt);
        assert(rt.to_multiset() == rows.to_multiset().remove(x));
        assert(it.to_multiset() == infos.to_multiset().remove(x));
        assert forall|i: int, j: int| 0 <= i < j < it.len() implies it[i].path != it[j].path by {
            let i0 = if i < a { i } else { i + 1 };
            let j0 = if j < a { j } else { j + 1 };
            assert(it[i] == infos[i0]);
            assert(it[j] == infos[j0]);
        }
        lemma_distinct_paths_transfer(rt, it);
        assert forall|i: int, j: int| 0 <= i < j < rows.len() implies rows[i].path
            != rows[j].path by {
            if i == 0 {
                // the later row also lies in `infos`, away from position `a`
                let y = rows[j];
                assert(rt[j - 1] == y);
                assert(rt.contains(y));
                assert(rt.to_multiset().contains(y));
                assert(it.to_multiset().contains(y));
                assert(it.contains(y));
                let b = choose|b: int| 0 <= b < it.len() && it[b] == y;
                let b0 = if b < a { b } else { b + 1 };
                assert(it[b] == infos[b0]);
                assert(infos[a] == x);
                if b0 != a {
                    assert(x.path != y.path || x.path == y.path);
                    if x.path == y.path {
                        if b0 < a {
                            assert(infos[b0].path != infos[a].path);
                        } else {
                            assert(infos[a].path != infos[b0].path);
                        }
                    }
                }
            } else {
                assert(rt[i - 1] == rows[i]);
                assert(rt[j - 1] == rows[j]);
            }
        }
    }
}

/// Law (determinism): the generated table depends only on which records were
/// found, never on the order discovery or extraction handed them over. Any
/// two record sequences holding the same records, with pairwise distinct
/// paths, generate byte-identical tables: the sort by path, not the fan-in
/// order, fixes the rows.
pub proof fn lemma_generated_table_deterministic(
    recs1: Seq<PyFileView>,
    recs2: Seq<PyFileView>,
    tf: Seq<Seq<char>>,
    lf: Seq<Seq<char>>,
    t1: Seq<char>,
    t2: Seq<char>,
)
    requires
        recs1.to_multiset() == recs2.to_multiset(),
        distinct_rec_paths(recs1),
        table_for(recs1, tf, lf, t1),
        table_for(recs2, tf, lf, t2),
    ensures
        t1 == t2,
{
    let f = |pv: PyFileView| spec_info(pv, tf, lf);
    lemma_map_values_multiset(recs1, recs2, f);
    assert(infos_of(recs1, tf, lf).to_multiset() == infos_of(recs2, tf, lf).to_multiset());
    let rows1 = choose|rows: Seq<DocInfoView>|
        sorted_by_path(rows) && rows.to_multiset() == infos_of(recs1, tf, lf).to_multiset() && t1
            == spec_table(rows, tf);
    let rows2 = choose|rows: Seq<DocInfoView>|
        sorted_by_path(rows) && rows.to_multiset() == infos_of(recs2, tf, lf).to_multiset() && t2
            == spec_table(rows, tf);
    assert(distinct_paths(infos_of(recs1, tf, lf))) by {
        assert forall|i: int, j: int| 0 <= i < j < infos_of(recs1, tf, lf).len() implies infos_of(
            recs1,
            tf,
            lf,
        )[i].path != infos_of(recs1, tf, lf)[j].path by {
            assert(infos_of(recs1, tf, lf)[i] == f(recs1[i]));
            assert(infos_of(recs1, tf, lf)[j] == f(recs1[j]));
        }
    }
    lemma_distinct_paths_transfer(rows1, infos_of(recs1, tf, lf));
    lemma_sorted_rows_unique(rows1, rows2);
}

/// An acceptable target document is never a candidate source file: its
/// extension reads `md`, `rst` or `txt`, never `py`.
pub proof fn lemma_valid_readme_not_py(p: Seq<char>)
    requires
        spec_valid_readme_path(p),
    ensures
        !crate::adapters::has_py_ext(p),
{
    reveal_strlit("py");
    reveal_strlit("md");
    reveal_strlit("rst");
    reveal_strlit("txt");
    if crate::adapters::has_py_ext(p) {
        assert(crate::adapters::spec_extension(p) == Option::Some("py"@));
        assert(lower_seq("py"@) =~= "py"@) by {
            assert(lower_seq("py"@)[0] == crate::text::lower_char('p'));
            assert(lower_seq("py"@)[1] == crate::text::lower_char('y'));
        }
        assert("py"@ != "md"@) by {
            assert("py"@[0] == 'p' && "md"@[0] == 'm');
        }
        assert("py"@.len() == 2 && "rst"@.len() == 3 && "txt"@.len() == 3);
        assert(false);
    }
}

/// Writing the merged document back disturbs no candidate source file, so
/// the same records read from the old file map read unchanged from the new.
pub proof fn lemma_records_survive_write(
    f0: Map<Seq<char>, Seq<char>>,
    p: Seq<char>,
    newdoc: Seq<char>,
    recs: Seq<PyFileView>,
)
    requires
        spec_valid_readme_path(p),
        recs_from(f0, recs),
        recs_py(recs),
    ensures
        recs_from(f0.insert(p, newdoc), recs),
{
    lemma_valid_readme_not_py(p);
    let f1 = f0.insert(p, newdoc);
    assert forall|i: int| 0 <= i < recs.len() implies rec_ok(f1, #[trigger] recs[i]) by {
        assert(crate::adapters::has_py_ext(recs[i].path));
        assert(recs[i].path != p);
        assert(f1.contains_key(recs[i].path) && f1[recs[i].path] == f0[recs[i].path]);
    }
}

/// Law (idempotence, pipeline level): after a run that wrote the merged
/// document back, a second run over the unchanged sources reads that
/// document, renders the same table, and merges to the very same text — it
/// reports no modification, and the text is fixed under repeated runs. The
/// document must have held a managed section or no `# Scripts` line, and the
/// field names and the records' basenames must be free of line breaks.
pub proof fn lemma_second_run_reports_no_modification(
    f0: Map<Seq<char>, Seq<char>>,
    p: Seq<char>,
    tf: Seq<Seq<char>>,
    lf: Seq<Seq<char>>,
    recs: Seq<PyFileView>,
    t: Seq<char>,
)
    requires
        spec_valid_readme_path(p),
        f0.contains_key(p),
        recs_from(f0, recs),
        recs_py(recs),
        table_for(recs, tf, lf, t),
        fields_clean(tf),
        forall|i: int|
            0 <= i < recs.len() ==> newline_free(spec_basename(#[trigger] recs[i].path)),
        has_managed_region(f0[p]) || find_marker_line(f0[p], title_marker(), 0) == f0[p].len(),
    ensures
        ({
            let f1 = f0.insert(p, spec_merge(f0[p], t));
            &&& recs_from(f1, recs)
            &&& f1.contains_key(p)
            &&& spec_merge(f1[p], t) == f1[p]
            &&& run_not_modified(f1, p, tf, lf)
        }),
{
    broadcast use {vstd::seq_lib::group_to_multiset_ensures, vstd::multiset::group_multiset_axioms};

    let f1 = f0.insert(p, spec_merge(f0[p], t));
    lemma_records_survive_write(f0, p, spec_merge(f0[p], t), recs);
    // the table's rows are the records' extractions, so their rows are clean
    let rows = choose|rows: Seq<DocInfoView>|
        sorted_by_path(rows) && rows.to_multiset() == infos_of(recs, tf, lf).to_multiset() && t
            == spec_table(rows, tf);
    assert forall|i: int| 0 <= i < rows.len() implies row_clean(#[trigger] rows[i], tf) by {
        assert(rows.contains(rows[i]));
        assert(rows.to_multiset().contains(rows[i]));
        assert(infos_of(recs, tf, lf).to_multiset().contains(rows[i]));
        assert(infos_of(recs, tf, lf).contains(rows[i]));
        let j = choose|j: int|
            0 <= j < infos_of(recs, tf, lf).len() && infos_of(recs, tf, lf)[j] == rows[i];
        assert(infos_of(recs, tf, lf)[j] == spec_info(recs[j], tf, lf));
        lemma_parsed_row_clean(recs[j], tf, lf);
    }
    // merging the same table once more changes nothing
    lemma_pipeline_idempotent(f0[p], rows, tf);
    assert(f1[p] == spec_merge(f0[p], t));
    assert(spec_merge(f1[p], t) == f1[p]);
    assert(recs_from(f1, recs) && recs_py(recs) && table_for(recs, tf, lf, t) && spec_merge(
        f1[p],
        t,
    ) == f1[p]);
    assert(run_not_modified(f1, p, tf, lf));
}

} // verus!
