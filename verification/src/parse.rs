//! Scanning a docstring for `Field: value` lines.
//!
//! Each line is taken trimmed of leading whitespace; the first configured
//! field whose `"<Name>: "` prefix matches claims the line, so a line sets at
//! most one field. When several lines set the same field, the value seen
//! last wins. A field no line sets stays absent from the record.

use vstd::prelude::*;
use vstd::string::*;
use crate::table::{TableValue, TableValueView, fields_map};
use crate::text::{
    has_prefix, newline_free, spec_lines, spec_trim_start, split_lines, starts_with_str,
    trim_start_of, ws_end,
};

verus! {

/// The prefix a line must carry to set field `f`.
pub open spec fn field_prefix(f: Seq<char>) -> Seq<char> {
    f + ": "@
}

/// The line, once trimmed of leading whitespace, starts with `"<f>: "`.
pub open spec fn line_matches(line: Seq<char>, f: Seq<char>) -> bool {
    has_prefix(spec_trim_start(line), field_prefix(f))
}

/// What the line assigns to `f`: everything after the prefix.
pub open spec fn line_value(line: Seq<char>, f: Seq<char>) -> Seq<char> {
    spec_trim_start(line).skip(f.len() as int + 2)
}

/// The first field in `tf` at or past `i` whose prefix matches the line.
pub open spec fn first_match_from(line: Seq<char>, tf: Seq<Seq<char>>, i: int) -> Option<int>
    recommends
        0 <= i <= tf.len(),
    decreases tf.len() - i,
{
    if i < 0 || i >= tf.len() {
        Option::None
    } else if line_matches(line, tf[i]) {
        Option::Some(i)
    } else {
        first_match_from(line, tf, i + 1)
    }
}

/// The field the line sets: the first configured field whose prefix
/// matches, so overlapping prefixes cannot set two fields from one line.
pub open spec fn first_match(line: Seq<char>, tf: Seq<Seq<char>>) -> Option<int> {
    first_match_from(line, tf, 0)
}

pub proof fn lemma_first_match_from(line: Seq<char>, tf: Seq<Seq<char>>, i: int)
    requires
        0 <= i <= tf.len(),
    ensures
        match first_match_from(line, tf, i) {
            Option::Some(k) => i <= k < tf.len() && line_matches(line, tf[k]) && forall|j: int|
                i <= j < k ==> !line_matches(line, tf[j]),
            Option::None => forall|j: int| i <= j < tf.len() ==> !line_matches(line, tf[j]),
        },
    decreases tf.len() - i,
{
    if i < tf.len() && !line_matches(line, tf[i]) {
        lemma_first_match_from(line, tf, i + 1);
    }
}

/// The line sets field `f`.
pub open spec fn line_assigns(line: Seq<char>, tf: Seq<Seq<char>>, f: Seq<char>) -> bool {
    match first_match(line, tf) {
        Option::Some(k) => tf[k] == f,
        Option::None => false,
    }
}

/// The field map after scanning the first `n` lines, in order; a later
/// match for a field overwrites an earlier value.
pub open spec fn parse_lines_upto(
    lines: Seq<Seq<char>>,
    tf: Seq<Seq<char>>,
    lf: Seq<Seq<char>>,
    n: int,
) -> Map<Seq<char>, TableValueView>
    recommends
        n <= lines.len(),
    decreases n,
{
    if n <= 0 {
        Map::empty()
    } else {
        let m = parse_lines_upto(lines, tf, lf, n - 1);
        match first_match(lines[n - 1], tf) {
            Option::None => m,
            Option::Some(k) => m.insert(
                tf[k],
                TableValueView { value: line_value(lines[n - 1], tf[k]), is_link: lf.contains(tf[k]) },
            ),
        }
    }
}

/// The field map a whole docstring yields for the configured fields.
pub open spec fn spec_parse_fields(
    docstring: Seq<char>,
    tf: Seq<Seq<char>>,
    lf: Seq<Seq<char>>,
) -> Map<Seq<char>, TableValueView> {
    parse_lines_upto(spec_lines(docstring), tf, lf, spec_lines(docstring).len() as int)
}

/// Whether some entry of `v` spells `key`.
pub fn contains_string(v: &Vec<String>, key: &String) -> (r: bool)
    ensures
        r == v.deep_view().contains(key@),
{
    let mut i: usize = 0;
    while i < v.len()
        invariant
            0 <= i <= v@.len(),
            forall|j: int| 0 <= j < i ==> v.deep_view()[j] != key@,
        decreases v@.len() - i,
    {
        if v[i].eq(key) {
            proof {
                assert(v.deep_view()[i as int] == key@);
            }
            return true;
        }
        i = i + 1;
    }
    proof {
        assert(forall|j: int| 0 <= j < v.deep_view().len() ==> v.deep_view()[j] != key@);
    }
    false
}

/// Scans the docstring line by line and returns the field entries, exactly
/// the map `spec_parse_fields` describes (last write per field wins).
pub fn parse_doc_fields(docstring: &str, table_fields: &Vec<String>, link_fields: &Vec<String>)
    -> (r: Vec<(String, TableValue)>)
    ensures
        fields_map(r@) == spec_parse_fields(
            docstring@,
            table_fields.deep_view(),
            link_fields.deep_view(),
        ),
{
    let ghost tfv = table_fields.deep_view();
    let ghost lfv = link_fields.deep_view();
    let ghost linesv = spec_lines(docstring@);
    let lines = split_lines(docstring);
    let mut fields: Vec<(String, TableValue)> = Vec::new();
    let mut li: usize = 0;
    proof {
        assert(fields_map(fields@) =~= parse_lines_upto(linesv, tfv, lfv, 0));
    }
    while li < lines.len()
        invariant
            0 <= li <= lines@.len(),
            lines.deep_view() == linesv,
            tfv == table_fields.deep_view(),
            lfv == link_fields.deep_view(),
            fields_map(fields@) == parse_lines_upto(linesv, tfv, lfv, li as int),
        decreases lines@.len() - li,
    {
        let ghost linev = linesv[li as int];
        let trimmed = trim_start_of(lines[li].as_str());
        proof {
            assert(lines@[li as int]@ == linev);
            assert(trimmed@ == spec_trim_start(linev));
        }
        // the first configured field whose prefix opens this line, if any
        let mut k: usize = 0;
        let mut found: bool = false;
        while k < table_fields.len()
            invariant_except_break
                !found,
            invariant
                0 <= k <= table_fields@.len(),
                tfv == table_fields.deep_view(),
                trimmed@ == spec_trim_start(linev),
                first_match(linev, tfv) == first_match_from(linev, tfv, k as int),
            ensures
                0 <= k <= table_fields@.len(),
                tfv == table_fields.deep_view(),
                found ==> k < table_fields@.len() && first_match(linev, tfv)
                    == Option::Some(k as int) && line_matches(linev, tfv[k as int]),
                !found ==> first_match(linev, tfv) is None,
            decreases table_fields@.len() - k,
        {
            let mut prefix = table_fields[k].clone();
            prefix.append(": ");
            proof {
                assert(table_fields@[k as int]@ == tfv[k as int]);
                assert(prefix@ == field_prefix(tfv[k as int]));
            }
            if starts_with_str(trimmed, prefix.as_str()) {
                found = true;
                proof {
                    assert(line_matches(linev, tfv[k as int]));
                    assert(first_match_from(linev, tfv, k as int) == Option::Some(k as int));
                }
                break;
            }
            k = k + 1;
        }
        if found {
            let field = &table_fields[k];
            let prefix_len = field.as_str().unicode_len();
            let tlen = trimmed.unicode_len();
            proof {
                reveal_strlit(": ");
                assert(field_prefix(tfv[k as int]).len() == tfv[k as int].len() + 2);
                assert(has_prefix(trimmed@, field_prefix(tfv[k as int])));
            }
            let value = trimmed.substring_char(prefix_len + 2, tlen);
            let is_link = contains_string(link_fields, field);
            let tv = TableValue::new(value, is_link);
            let ghost old_fields = fields@;
            fields.push((field.clone(), tv));
            proof {
                assert(fields@.drop_last() =~= old_fields);
                assert(fields@.last().0@ == tfv[k as int]);
                assert(fields@.last().1@ == TableValueView {
                    value: trimmed@.subrange(tfv[k as int].len() as int + 2, trimmed@.len() as int),
                    is_link: lfv.contains(tfv[k as int]),
                });
                assert(trimmed@.subrange(tfv[k as int].len() as int + 2, trimmed@.len() as int)
                    =~= line_value(linev, tfv[k as int]));
                assert(fields_map(fields@) == parse_lines_upto(linesv, tfv, lfv, li + 1));
            }
        } else {
            proof {
                assert(fields_map(fields@) == parse_lines_upto(linesv, tfv, lfv, li + 1));
            }
        }
        li = li + 1;
    }
    proof {
        assert(linesv.len() == lines@.len());
    }
    fields
}

proof fn lemma_last_write_wins_aux(
    lines: Seq<Seq<char>>,
    tf: Seq<Seq<char>>,
    lf: Seq<Seq<char>>,
    f: Seq<char>,
    j: int,
    n: int,
)
    requires
        0 <= j < n <= lines.len(),
        line_assigns(lines[j], tf, f),
        forall|j2: int| j < j2 < n ==> !line_assigns(lines[j2], tf, f),
    ensures
        parse_lines_upto(lines, tf, lf, n).contains_key(f),
        parse_lines_upto(lines, tf, lf, n)[f] == (TableValueView {
            value: line_value(lines[j], f),
            is_link: lf.contains(f),
        }),
    decreases n,
{
    if n == j + 1 {
        let k = first_match(lines[j], tf)->Some_0;
        assert(tf[k] == f);
    } else {
        lemma_last_write_wins_aux(lines, tf, lf, f, j, n - 1);
        match first_match(lines[n - 1], tf) {
            Option::None => {},
            Option::Some(k2) => {
                assert(!line_assigns(lines[n - 1], tf, f));
                assert(tf[k2] != f);
            },
        }
    }
}

/// Law: when several lines of a docstring set the same field, the record
/// holds the value of the last such line — later matches overwrite earlier
/// ones. `j` is the last line that sets `f`.
pub proof fn lemma_last_write_wins(
    lines: Seq<Seq<char>>,
    tf: Seq<Seq<char>>,
    lf: Seq<Seq<char>>,
    f: Seq<char>,
    j: int,
)
    requires
        0 <= j < lines.len(),
        line_assigns(lines[j], tf, f),
        forall|j2: int| j < j2 < lines.len() ==> !line_assigns(lines[j2], tf, f),
    ensures
        parse_lines_upto(lines, tf, lf, lines.len() as int).contains_key(f),
        parse_lines_upto(lines, tf, lf, lines.len() as int)[f] == (TableValueView {
            value: line_value(lines[j], f),
            is_link: lf.contains(f),
        }),
{
    lemma_last_write_wins_aux(lines, tf, lf, f, j, lines.len() as int);
}

/// Every value the parse yields is cut from one line, so no parsed value
/// holds a line break when no line does.
pub proof fn lemma_parse_values_nf(
    lines: Seq<Seq<char>>,
    tf: Seq<Seq<char>>,
    lf: Seq<Seq<char>>,
    n: int,
)
    requires
        0 <= n <= lines.len(),
        forall|i: int, k: int|
            0 <= i < lines.len() && 0 <= k < lines[i].len() ==> lines[i][k] != '\n',
    ensures
        forall|f: Seq<char>|
            #[trigger] parse_lines_upto(lines, tf, lf, n).contains_key(f) ==> newline_free(
                parse_lines_upto(lines, tf, lf, n)[f].value,
            ),
    decreases n,
{
    if n > 0 {
        lemma_parse_values_nf(lines, tf, lf, n - 1);
        let prev = parse_lines_upto(lines, tf, lf, n - 1);
        let m = parse_lines_upto(lines, tf, lf, n);
        match first_match(lines[n - 1], tf) {
            Option::None => {
                assert(m == prev);
            },
            Option::Some(k) => {
                let line = lines[n - 1];
                lemma_first_match_from(line, tf, 0);
                assert(line_matches(line, tf[k]));
                let trimmed = spec_trim_start(line);
                let flen = tf[k].len() as int;
                assert(field_prefix(tf[k]).len() == flen + 2) by {
                    reveal_strlit(": ");
                }
                assert(flen + 2 <= trimmed.len());
                crate::text::lemma_ws_end(line, 0);
                let v = line_value(line, tf[k]);
                assert(newline_free(v)) by {
                    assert forall|x: int| 0 <= x < v.len() implies v[x] != '\n' by {
                        assert(v[x] == trimmed[x + flen + 2]);
                        assert(trimmed[x + flen + 2] == line[ws_end(line, 0) + x + flen + 2]);
                    }
                }
                assert forall|f: Seq<char>| #[trigger] m.contains_key(f) implies newline_free(
                    m[f].value,
                ) by {
                    if f == tf[k] {
                        assert(m[f].value == v);
                    } else {
                        assert(prev.contains_key(f));
                        assert(m[f] == prev[f]);
                    }
                }
            },
        }
    }
}

/// A field no line sets stays absent from the parsed record.
pub proof fn lemma_unset_field_absent(
    lines: Seq<Seq<char>>,
    tf: Seq<Seq<char>>,
    lf: Seq<Seq<char>>,
    f: Seq<char>,
    n: int,
)
    requires
        0 <= n <= lines.len(),
        forall|j: int| 0 <= j < n ==> !line_assigns(lines[j], tf, f),
    ensures
        !parse_lines_upto(lines, tf, lf, n).contains_key(f),
    decreases n,
{
    if n > 0 {
        lemma_unset_field_absent(lines, tf, lf, f, n - 1);
        match first_match(lines[n - 1], tf) {
            Option::None => {},
            Option::Some(k2) => {
                assert(!line_assigns(lines[n - 1], tf, f));
                assert(tf[k2] != f);
            },
        }
    }
}

} // verus!
