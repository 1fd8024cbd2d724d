//! Replacing the managed section of a document with a freshly generated
//! table.
//!
//! The managed section begins at the first line that is exactly `# Scripts`
//! and ends at the first following line that is exactly `::`; the whole
//! region, both marker lines included, is replaced. A document without such a
//! region keeps all its text and gets a blank line and the table appended.
//! Only the first region is replaced when several exist.

use vstd::prelude::*;
use vstd::string::*;
use crate::table::{
    DocInfoView, spec_cell, spec_cells_joined, spec_fields_joined, spec_header, spec_row,
    spec_rows_block, spec_sep_run, spec_separator, spec_table,
};
use crate::text::{lemma_nf_concat, newline_free, spec_basename};

verus! {

/// Position `i` begins a line.
pub open spec fn line_start(s: Seq<char>, i: int) -> bool {
    i == 0 || s[i - 1] == '\n'
}

/// The line beginning at `i` is exactly `m`: `m`'s characters, then the end
/// of the text or a line break.
pub open spec fn marker_line_at(s: Seq<char>, i: int, m: Seq<char>) -> bool {
    &&& 0 <= i
    &&& i + m.len() <= s.len()
    &&& line_start(s, i)
    &&& s.subrange(i, i + m.len()) == m
    &&& (i + m.len() == s.len() || s[i + m.len()] == '\n')
}

/// The line that opens a managed section.
pub open spec fn title_marker() -> Seq<char> {
    "# Scripts"@
}

/// The line that closes a managed section.
pub open spec fn colons_marker() -> Seq<char> {
    "::"@
}

/// First position `j >= i` where the line is exactly `m`, or `s.len()` when
/// no line at or past `i` is.
pub open spec fn find_marker_line(s: Seq<char>, m: Seq<char>, i: int) -> int
    recommends
        0 <= i <= s.len(),
    decreases s.len() - i,
{
    if i < 0 || i >= s.len() {
        s.len() as int
    } else if marker_line_at(s, i, m) {
        i
    } else {
        find_marker_line(s, m, i + 1)
    }
}

pub proof fn lemma_find_marker_line(s: Seq<char>, m: Seq<char>, i: int)
    requires
        0 <= i <= s.len(),
    ensures
        i <= find_marker_line(s, m, i) <= s.len(),
        find_marker_line(s, m, i) < s.len() ==> marker_line_at(s, find_marker_line(s, m, i), m),
        forall|j: int| i <= j < find_marker_line(s, m, i) ==> !marker_line_at(s, j, m),
    decreases s.len() - i,
{
    if i < s.len() && !marker_line_at(s, i, m) {
        lemma_find_marker_line(s, m, i + 1);
    }
}

/// A position that is a marker line, with none between `i` and it, is what
/// `find_marker_line` returns.
pub proof fn lemma_find_marker_line_unique(s: Seq<char>, m: Seq<char>, i: int, f: int)
    requires
        0 <= i <= f,
        f + m.len() <= s.len(),
        m.len() > 0,
        marker_line_at(s, f, m),
        forall|j: int| i <= j < f ==> !marker_line_at(s, j, m),
    ensures
        find_marker_line(s, m, i) == f,
{
    lemma_find_marker_line(s, m, i);
    let r = find_marker_line(s, m, i);
    if r < f {
        assert(marker_line_at(s, r, m));
    } else if r > f {
        assert(f < s.len());
        assert(!marker_line_at(s, f, m));
    }
}

/// The document has a managed section: a `# Scripts` line with a later `::`
/// line.
pub open spec fn has_managed_region(doc: Seq<char>) -> bool {
    let s = find_marker_line(doc, title_marker(), 0);
    s < doc.len() && find_marker_line(doc, colons_marker(), s + 1) < doc.len()
}

/// The merged document: the first managed region replaced by `table`, or,
/// when there is none, the document with a blank line and `table` appended.
pub open spec fn spec_merge(doc: Seq<char>, table: Seq<char>) -> Seq<char> {
    let s = find_marker_line(doc, title_marker(), 0);
    if s < doc.len() {
        let p = find_marker_line(doc, colons_marker(), s + 1);
        if p < doc.len() {
            doc.subrange(0, s) + table + doc.subrange(p + 2, doc.len() as int)
        } else {
            doc + "\n\n"@ + table
        }
    } else {
        doc + "\n\n"@ + table
    }
}

/// The shape every generated table has, as far as merging cares: it opens
/// with the line `# Scripts`, closes with a line `::`, and no line between
/// the two is `::`.
pub open spec fn table_wf(t: Seq<char>) -> bool {
    &&& t.len() >= 12
    &&& t.subrange(0, 10) == title_marker() + "\n"@
    &&& t.subrange(t.len() - 3, t.len() as int) == "\n::"@
    &&& forall|j: int|
        10 <= j < t.len() - 2 && #[trigger] line_start(t, j) ==> !(t[j] == ':' && t[j + 1] == ':'
            && t[j + 2] == '\n')
}

/// Spelled-out facts about the two marker literals.
proof fn lemma_title_facts()
    ensures
        title_marker().len() == 9,
        colons_marker().len() == 2,
        title_marker()[0] == '#',
        forall|j: int| 1 <= j < 9 ==> title_marker()[j] != '#',
        forall|j: int| 0 <= j < 9 ==> title_marker()[j] != '\n',
        colons_marker()[0] == ':',
        colons_marker()[1] == ':',
{
    reveal_strlit("# Scripts");
    reveal_strlit("::");
}

/// Re-merging the same table into a document of the shape `pre + t + suf` —
/// the table at a line start, the tail empty or opening with a line break,
/// and no `# Scripts` line inside `pre` — reproduces the document.
proof fn lemma_remerge(pre: Seq<char>, t: Seq<char>, suf: Seq<char>)
    requires
        table_wf(t),
        pre.len() == 0 || pre.last() == '\n',
        suf.len() == 0 || suf[0] == '\n',
        forall|k: int| 0 <= k && k + 9 < pre.len() ==> !marker_line_at(pre, k, title_marker()),
    ensures
        spec_merge(pre + t + suf, t) == pre + t + suf,
{
    lemma_title_facts();
    reveal_strlit("\n::");
    let m = pre + t + suf;
    let plen = pre.len() as int;
    let tlen = t.len() as int;
    let title = title_marker();
    let colons = colons_marker();
    // how the parts of the concatenation index
    assert forall|k: int| 0 <= k < plen implies m[k] == pre[k] by {}
    assert forall|j: int| 0 <= j < tlen implies m[plen + j] == t[j] by {}
    assert forall|j: int| 0 <= j < suf.len() implies m[plen + tlen + j] == suf[j] by {}
    // the table's own characters, read off its well-formedness
    assert forall|j: int| 0 <= j < 9 implies t[j] == title[j] by {
        assert(t.subrange(0, 10)[j] == t[j]);
        assert((title_marker() + "\n"@)[j] == title[j]);
    }
    assert(t[9] == '\n') by {
        reveal_strlit("\n");
        assert(t.subrange(0, 10)[9] == t[9]);
        assert((title_marker() + "\n"@)[9] == "\n"@[0]);
    }
    assert(t[tlen - 3] == '\n' && t[tlen - 2] == ':' && t[tlen - 1] == ':') by {
        assert(t.subrange(tlen - 3, tlen)[0] == t[tlen - 3]);
        assert(t.subrange(tlen - 3, tlen)[1] == t[tlen - 2]);
        assert(t.subrange(tlen - 3, tlen)[2] == t[tlen - 1]);
    }
    // the table opens the first `# Scripts` line of the whole document
    assert(marker_line_at(m, plen, title)) by {
        assert(m.subrange(plen, plen + 9) =~= title);
        assert(m[plen + 9] == '\n');
    }
    assert forall|k: int| 0 <= k < plen implies !marker_line_at(m, k, title) by {
        if marker_line_at(m, k, title) {
            if k + 9 < plen {
                assert(pre.subrange(k, k + 9) =~= m.subrange(k, k + 9));
                assert(pre[k + 9] == m[k + 9]);
                assert(marker_line_at(pre, k, title));
            } else if k + 9 == plen {
                // the character after the would-be marker is the table's `#`
                assert(m[k + 9] == t[0]);
                assert(m[k + 9] == '#');
                assert(k + 9 < m.len());
            } else {
                // the table's `#` would have to appear inside `# Scripts`
                assert(m.subrange(k, k + 9)[plen - k] == title[plen - k]);
                assert(m[plen] == title[plen - k]);
                assert(m[plen] == t[0]);
                assert(1 <= plen - k < 9);
            }
        }
    }
    lemma_find_marker_line_unique(m, title, 0, plen);
    // the table's closing `::` is the first one after its title line
    assert(marker_line_at(m, plen + tlen - 2, colons)) by {
        assert(m[plen + tlen - 3] == t[tlen - 3]);
        assert(m.subrange(plen + tlen - 2, plen + tlen) =~= colons);
        if suf.len() > 0 {
            assert(m[plen + tlen] == suf[0]);
        }
    }
    assert forall|k: int| plen + 1 <= k < plen + tlen - 2 implies !marker_line_at(
        m,
        k,
        colons,
    ) by {
        if marker_line_at(m, k, colons) {
            let j = k - plen;
            assert(m[k - 1] == t[j - 1]);
            if j < 10 {
                // still inside the title line: no line break before `k`
                assert(t[j - 1] == title[j - 1]);
                assert(!line_start(m, k));
            } else {
                // an interior line of the table that reads `::`
                assert(line_start(t, j));
                assert(m.subrange(k, k + 2)[0] == colons[0]);
                assert(m.subrange(k, k + 2)[1] == colons[1]);
                assert(t[j] == ':' && t[j + 1] == ':');
                assert(k + 2 < m.len());
                assert(m[k + 2] == t[j + 2]);
                assert(t[j + 2] == '\n');
            }
        }
    }
    lemma_find_marker_line_unique(m, colons, plen + 1, plen + tlen - 2);
    // so the merge replaces exactly the table span, reproducing the document
    assert(find_marker_line(m, title, 0) == plen);
    assert(find_marker_line(m, colons, plen + 1) == plen + tlen - 2);
    assert(plen < m.len());
    assert(plen + tlen - 2 < m.len());
    assert(m.subrange(0, plen) =~= pre);
    assert(m.subrange(plen + tlen, m.len() as int) =~= suf);
    assert(spec_merge(m, t) =~= pre + t + suf);
}

/// Law (idempotence): merging a well-formed table into a document that has a
/// managed region, or no `# Scripts` line at all, is stable: merging the same
/// table into the result gives the result back unchanged.
pub proof fn lemma_merge_idempotent(doc: Seq<char>, t: Seq<char>)
    requires
        table_wf(t),
        has_managed_region(doc) || find_marker_line(doc, title_marker(), 0) == doc.len(),
    ensures
        spec_merge(spec_merge(doc, t), t) == spec_merge(doc, t),
{
    lemma_title_facts();
    let title = title_marker();
    let colons = colons_marker();
    let s = find_marker_line(doc, title, 0);
    lemma_find_marker_line(doc, title, 0);
    if s < doc.len() {
        let p = find_marker_line(doc, colons, s + 1);
        lemma_find_marker_line(doc, colons, s + 1);
        assert(p < doc.len());
        let pre = doc.subrange(0, s);
        let suf = doc.subrange(p + 2, doc.len() as int);
        assert(marker_line_at(doc, s, title));
        assert(marker_line_at(doc, p, colons));
        assert(pre.len() == 0 || pre.last() == '\n');
        assert(suf.len() == 0 || suf[0] == '\n');
        assert forall|k: int| 0 <= k && k + 9 < pre.len() implies !marker_line_at(
            pre,
            k,
            title,
        ) by {
            if marker_line_at(pre, k, title) {
                assert(doc.subrange(k, k + 9) =~= pre.subrange(k, k + 9));
                assert(doc[k + 9] == pre[k + 9]);
                assert(marker_line_at(doc, k, title));
            }
        }
        lemma_remerge(pre, t, suf);
        assert(spec_merge(doc, t) =~= pre + t + suf);
    } else {
        reveal_strlit("\n\n");
        let pre = doc + "\n\n"@;
        assert(pre.last() == '\n');
        assert forall|k: int| 0 <= k && k + 9 < pre.len() implies !marker_line_at(
            pre,
            k,
            title,
        ) by {
            if marker_line_at(pre, k, title) {
                let dlen = doc.len() as int;
                if k >= dlen {
                    // the would-be title would start on the appended blank line
                    assert(pre.subrange(k, k + 9)[0] == title[0]);
                    assert(pre[k] == '\n');
                } else if k + 9 > dlen {
                    // the appended line break would sit inside `# Scripts`
                    assert(pre.subrange(k, k + 9)[dlen - k] == title[dlen - k]);
                    assert(pre[dlen] == '\n');
                    assert(0 <= dlen - k < 9);
                } else {
                    // entirely inside the document, which has no title line
                    assert(doc.subrange(k, k + 9) =~= pre.subrange(k, k + 9));
                    if k + 9 < dlen {
                        assert(doc[k + 9] == pre[k + 9]);
                    }
                    assert(marker_line_at(doc, k, title));
                }
            }
        }
        lemma_remerge(pre, t, Seq::<char>::empty());
        assert(pre + t + Seq::<char>::empty() =~= doc + "\n\n"@ + t);
        assert(spec_merge(doc, t) == doc + "\n\n"@ + t);
    }
}

/// Every line of `b` opens with `|`, and `b` closes with a line break; the
/// shape of the generated table between its two marker lines.
pub open spec fn pipe_lines(b: Seq<char>) -> bool {
    b.len() == 0 || (b[0] == '|' && b.last() == '\n' && forall|j: int|
        0 <= j < b.len() && #[trigger] line_start(b, j) ==> b[j] == '|')
}

proof fn lemma_pipe_concat(x: Seq<char>, y: Seq<char>)
    requires
        pipe_lines(x),
        pipe_lines(y),
    ensures
        pipe_lines(x + y),
{
    if x.len() == 0 {
        assert(x + y =~= y);
    } else if y.len() == 0 {
        assert(x + y =~= x);
    } else {
        let b = x + y;
        assert(b[0] == x[0]);
        assert(b.last() == y.last());
        assert forall|j: int| 0 <= j < b.len() && #[trigger] line_start(b, j) implies b[j]
            == '|' by {
            if j < x.len() {
                if j > 0 {
                    assert(b[j - 1] == x[j - 1]);
                }
                assert(line_start(x, j));
                assert(b[j] == x[j]);
            } else if j == x.len() {
                assert(b[j] == y[0]);
            } else {
                assert(b[j - 1] == y[j - 1 - x.len()]);
                assert(line_start(y, j - x.len()));
                assert(b[j] == y[j - x.len()]);
            }
        }
    }
}

proof fn lemma_pipe_single(line: Seq<char>)
    requires
        line.len() > 0,
        line[0] == '|',
        newline_free(line),
    ensures
        pipe_lines(line + "\n"@),
{
    reveal_strlit("\n");
    let b = line + "\n"@;
    assert(b[0] == line[0]);
    assert(b.last() == '\n');
    assert forall|j: int| 0 <= j < b.len() && #[trigger] line_start(b, j) implies b[j] == '|' by {
        if j > 0 {
            if j - 1 < line.len() {
                assert(b[j - 1] == line[j - 1]);
                assert(false);
            } else {
                assert(j == b.len());
            }
        }
    }
}

/// Every configured field name is free of line breaks.
pub open spec fn fields_clean(tf: Seq<Seq<char>>) -> bool {
    forall|k: int| 0 <= k < tf.len() ==> newline_free(#[trigger] tf[k])
}

/// The row a record renders is free of line breaks: its basename and each of
/// its cells are.
pub open spec fn row_clean(info: DocInfoView, tf: Seq<Seq<char>>) -> bool {
    newline_free(spec_basename(info.path)) && forall|k: int|
        0 <= k < tf.len() ==> newline_free(#[trigger] spec_cell(info, tf[k]))
}

proof fn lemma_fields_joined_nf(tf: Seq<Seq<char>>)
    requires
        fields_clean(tf),
    ensures
        newline_free(spec_fields_joined(tf)),
    decreases tf.len(),
{
    reveal_strlit(" | ");
    if tf.len() <= 1 {
        assert(newline_free(Seq::<char>::empty()));
        assert(newline_free(" | "@));
    } else {
        assert(fields_clean(tf.drop_last()));
        lemma_fields_joined_nf(tf.drop_last());
        assert(newline_free(" | "@));
        lemma_nf_concat(spec_fields_joined(tf.drop_last()), " | "@);
        lemma_nf_concat(spec_fields_joined(tf.drop_last()) + " | "@, tf.last());
    }
}

proof fn lemma_header_line(tf: Seq<Seq<char>>)
    requires
        fields_clean(tf),
    ensures
        spec_header(tf).len() > 0,
        spec_header(tf)[0] == '|',
        newline_free(spec_header(tf)),
{
    reveal_strlit("| Name | ");
    reveal_strlit(" |");
    lemma_fields_joined_nf(tf);
    assert(newline_free("| Name | "@));
    assert(newline_free(" |"@));
    lemma_nf_concat("| Name | "@, spec_fields_joined(tf));
    lemma_nf_concat("| Name | "@ + spec_fields_joined(tf), " |"@);
    assert(spec_header(tf)[0] == "| Name | "@[0]);
}

proof fn lemma_sep_run_facts(n: int)
    requires
        n >= 1,
    ensures
        spec_sep_run(n).len() >= 5,
        spec_sep_run(n)[0] == '|',
        newline_free(spec_sep_run(n)),
    decreases n,
{
    reveal_strlit("|:---");
    assert(newline_free("|:---"@));
    if n == 1 {
        assert(spec_sep_run(0) =~= Seq::<char>::empty());
        assert(spec_sep_run(1) =~= "|:---"@);
    } else {
        lemma_sep_run_facts(n - 1);
        lemma_nf_concat(spec_sep_run(n - 1), "|:---"@);
        assert(spec_sep_run(n)[0] == spec_sep_run(n - 1)[0]);
    }
}

proof fn lemma_separator_line(tf: Seq<Seq<char>>)
    ensures
        spec_separator(tf).len() > 0,
        spec_separator(tf)[0] == '|',
        newline_free(spec_separator(tf)),
{
    reveal_strlit("|");
    lemma_sep_run_facts(tf.len() as int + 1);
    assert(newline_free("|"@));
    lemma_nf_concat(spec_sep_run(tf.len() as int + 1), "|"@);
    assert(spec_separator(tf)[0] == spec_sep_run(tf.len() as int + 1)[0]);
}

proof fn lemma_cells_joined_nf(info: DocInfoView, tf: Seq<Seq<char>>)
    requires
        forall|k: int| 0 <= k < tf.len() ==> newline_free(#[trigger] spec_cell(info, tf[k])),
    ensures
        newline_free(spec_cells_joined(info, tf)),
    decreases tf.len(),
{
    reveal_strlit(" | ");
    if tf.len() == 0 {
        assert(newline_free(Seq::<char>::empty()));
    } else if tf.len() == 1 {
        assert(newline_free(spec_cell(info, tf[0])));
    } else {
        assert forall|k: int| 0 <= k < tf.drop_last().len() implies newline_free(
            #[trigger] spec_cell(info, tf.drop_last()[k]),
        ) by {
            assert(tf.drop_last()[k] == tf[k]);
        }
        lemma_cells_joined_nf(info, tf.drop_last());
        assert(newline_free(" | "@));
        assert(newline_free(spec_cell(info, tf.last())));
        lemma_nf_concat(spec_cells_joined(info, tf.drop_last()), " | "@);
        lemma_nf_concat(spec_cells_joined(info, tf.drop_last()) + " | "@, spec_cell(info, tf.last()));
    }
}

proof fn lemma_row_line(info: DocInfoView, tf: Seq<Seq<char>>)
    requires
        row_clean(info, tf),
    ensures
        spec_row(info, tf).len() > 0,
        spec_row(info, tf)[0] == '|',
        newline_free(spec_row(info, tf)),
{
    reveal_strlit("| `");
    reveal_strlit("` | ");
    reveal_strlit(" |");
    lemma_cells_joined_nf(info, tf);
    assert(newline_free("| `"@));
    assert(newline_free("` | "@));
    assert(newline_free(" |"@));
    lemma_nf_concat("| `"@, spec_basename(info.path));
    lemma_nf_concat("| `"@ + spec_basename(info.path), "` | "@);
    lemma_nf_concat("| `"@ + spec_basename(info.path) + "` | "@, spec_cells_joined(info, tf));
    lemma_nf_concat(
        "| `"@ + spec_basename(info.path) + "` | "@ + spec_cells_joined(info, tf),
        " |"@,
    );
    assert(spec_row(info, tf)[0] == "| `"@[0]);
}

proof fn lemma_rows_block_pipe(rows: Seq<DocInfoView>, tf: Seq<Seq<char>>)
    requires
        forall|i: int| 0 <= i < rows.len() ==> row_clean(#[trigger] rows[i], tf),
    ensures
        pipe_lines(spec_rows_block(rows, tf)),
    decreases rows.len(),
{
    if rows.len() > 0 {
        assert forall|i: int| 0 <= i < rows.drop_last().len() implies row_clean(
            #[trigger] rows.drop_last()[i],
            tf,
        ) by {
            assert(rows.drop_last()[i] == rows[i]);
        }
        lemma_rows_block_pipe(rows.drop_last(), tf);
        lemma_row_line(rows.last(), tf);
        lemma_pipe_single(spec_row(rows.last(), tf));
        lemma_pipe_concat(
            spec_rows_block(rows.drop_last(), tf),
            spec_row(rows.last(), tf) + "\n"@,
        );
        assert(spec_rows_block(rows, tf) =~= spec_rows_block(rows.drop_last(), tf) + (spec_row(
            rows.last(),
            tf,
        ) + "\n"@));
    }
}

/// A rendered table is well-formed whenever the configured field names and
/// every record's basename and cells are free of line breaks: its rows all
/// open with `|`, so none of them can read `::`.
pub proof fn lemma_table_wf(rows: Seq<DocInfoView>, tf: Seq<Seq<char>>)
    requires
        fields_clean(tf),
        forall|i: int| 0 <= i < rows.len() ==> row_clean(#[trigger] rows[i], tf),
    ensures
        table_wf(spec_table(rows, tf)),
{
    reveal_strlit("# Scripts\n");
    reveal_strlit("# Scripts");
    reveal_strlit("::");
    reveal_strlit("\n::");
    reveal_strlit("\n");
    let t = spec_table(rows, tf);
    lemma_header_line(tf);
    lemma_separator_line(tf);
    lemma_rows_block_pipe(rows, tf);
    lemma_pipe_single(spec_header(tf));
    lemma_pipe_single(spec_separator(tf));
    lemma_pipe_concat(spec_header(tf) + "\n"@, spec_separator(tf) + "\n"@);
    lemma_pipe_concat(
        (spec_header(tf) + "\n"@) + (spec_separator(tf) + "\n"@),
        spec_rows_block(rows, tf),
    );
    let mid = (spec_header(tf) + "\n"@) + (spec_separator(tf) + "\n"@) + spec_rows_block(rows, tf);
    assert(t =~= "# Scripts\n"@ + mid + "::"@);
    assert(mid.len() >= 2);
    assert(t.len() == 10 + mid.len() + 2);
    // the table opens with its title line
    assert(t.subrange(0, 10) =~= title_marker() + "\n"@);
    // and closes with a line that is exactly `::`
    assert(mid.last() == '\n');
    assert(t[t.len() - 3] == mid.last());
    assert(t[t.len() - 2] == "::"@[0]);
    assert(t[t.len() - 1] == "::"@[1]);
    assert(t.subrange(t.len() - 3, t.len() as int) =~= "\n::"@);
    // every interior line opens with `|`, so none is `::`
    assert forall|j: int|
        10 <= j < t.len() - 2 && #[trigger] line_start(t, j) implies !(t[j] == ':' && t[j + 1]
            == ':' && t[j + 2] == '\n') by {
        if j == 10 {
            assert(t[j] == mid[0]);
        } else {
            assert(t[j - 1] == mid[j - 11]);
            assert(line_start(mid, j - 10));
            assert(t[j] == mid[j - 10]);
        }
        assert(t[j] == '|');
    }
}

/// Decides whether the line at `i` is exactly `m`.
fn is_marker_line_at(s: &str, i: usize, m: &str) -> (r: bool)
    requires
        i <= s@.len(),
    ensures
        r == marker_line_at(s@, i as int, m@),
{
    let n = s.unicode_len();
    let k = m.unicode_len();
    if n - i < k {
        return false;
    }
    if !(i == 0 || s.get_char(i - 1) == '\n') {
        return false;
    }
    let mut j: usize = 0;
    while j < k
        invariant
            0 <= j <= k,
            i + k <= n,
            n == s@.len(),
            k == m@.len(),
            forall|j0: int| 0 <= j0 < j ==> s@[i + j0] == m@[j0],
        decreases k - j,
    {
        if s.get_char(i + j) != m.get_char(j) {
            proof {
                assert(s@.subrange(i as int, i + m@.len())[j as int] != m@[j as int]);
            }
            return false;
        }
        j = j + 1;
    }
    proof {
        assert(s@.subrange(i as int, i + m@.len()) =~= m@);
    }
    if i + k == n {
        true
    } else {
        s.get_char(i + k) == '\n'
    }
}

/// First line at or past `from` that is exactly `m`, or the text's length.
fn find_marker_line_exec(s: &str, m: &str, from: usize) -> (r: usize)
    requires
        from <= s@.len(),
    ensures
        r == find_marker_line(s@, m@, from as int),
{
    let n = s.unicode_len();
    let mut i = from;
    while i < n
        invariant
            from <= i <= n,
            n == s@.len(),
            find_marker_line(s@, m@, from as int) == find_marker_line(s@, m@, i as int),
        decreases n - i,
    {
        if is_marker_line_at(s, i, m) {
            return i;
        }
        i = i + 1;
    }
    i
}

/// Splices `table` into `doc` as `spec_merge` describes: the first managed
/// region is replaced in place, and a document without one is kept whole
/// with a blank line and the table appended.
pub fn merge_section(doc: &str, table: &str) -> (r: String)
    ensures
        r@ == spec_merge(doc@, table@),
{
    let n = doc.unicode_len();
    let s = find_marker_line_exec(doc, "# Scripts", 0);
    if s < n {
        let p = find_marker_line_exec(doc, "::", s + 1);
        if p < n {
            proof {
                lemma_find_marker_line(doc@, "::"@, s as int + 1);
                reveal_strlit("::");
            }
            let mut r = doc.substring_char(0, s).to_owned();
            r.append(table);
            let tail = doc.substring_char(p + 2, n);
            r.append(tail);
            return r;
        }
    }
    let mut r = doc.to_owned();
    r.append("\n\n");
    r.append(table);
    r
}

} // verus!
