//! Ordering the extracted records by path.
//!
//! Extraction may visit files in any order; the deterministic sort by path
//! before rendering, not the extraction order, is what fixes the row order of
//! the generated table.

use vstd::prelude::*;
use vstd::multiset::Multiset;
use vstd::string::*;
use crate::table::{DocInfo, DocInfoView};
use crate::text::{
    lemma_str_le_antisym, lemma_str_le_total, lemma_str_le_trans, str_le, str_le_exec,
};

verus! {

broadcast use {vstd::seq_lib::group_to_multiset_ensures, vstd::multiset::group_multiset_axioms};

/// The rows are in (non-strictly) ascending path order.
pub open spec fn sorted_by_path(rows: Seq<DocInfoView>) -> bool {
    forall|i: int, j: int| 0 <= i < j < rows.len() ==> str_le(rows[i].path, rows[j].path)
}

/// No two rows share a path.
pub open spec fn distinct_paths(rows: Seq<DocInfoView>) -> bool {
    forall|i: int, j: int| 0 <= i < j < rows.len() ==> rows[i].path != rows[j].path
}

/// An index of a record whose path is least.
fn min_path_index(v: &Vec<DocInfo>) -> (m: usize)
    requires
        v@.len() > 0,
    ensures
        0 <= m < v@.len(),
        forall|j: int| 0 <= j < v@.len() ==> str_le(
            v.deep_view()[m as int].path,
            #[trigger] v.deep_view()[j].path,
        ),
{
    let mut m: usize = 0;
    let mut t: usize = 1;
    proof {
        lemma_str_le_total(v.deep_view()[0].path, v.deep_view()[0].path);
    }
    while t < v.len()
        invariant
            0 <= m < t <= v@.len(),
            forall|j: int| 0 <= j < t ==> str_le(
                v.deep_view()[m as int].path,
                #[trigger] v.deep_view()[j].path,
            ),
        decreases v@.len() - t,
    {
        proof {
            assert(v.deep_view()[t as int].path == v@[t as int].path@);
            assert(v.deep_view()[m as int].path == v@[m as int].path@);
        }
        if str_le_exec(v[t].path.as_str(), v[m].path.as_str()) {
            proof {
                assert forall|j: int| 0 <= j < t implies str_le(
                    v.deep_view()[t as int].path,
                    #[trigger] v.deep_view()[j].path,
                ) by {
                    lemma_str_le_trans(
                        v.deep_view()[t as int].path,
                        v.deep_view()[m as int].path,
                        v.deep_view()[j].path,
                    );
                }
                lemma_str_le_total(v.deep_view()[t as int].path, v.deep_view()[t as int].path);
            }
            m = t;
        } else {
            proof {
                lemma_str_le_total(
                    v.deep_view()[t as int].path,
                    v.deep_view()[m as int].path,
                );
            }
        }
        t = t + 1;
    }
    m
}

/// Sorts the records by path: the result is ascending in path order and
/// holds exactly the given records.
pub fn sort_doc_infos(v: Vec<DocInfo>) -> (r: Vec<DocInfo>)
    ensures
        sorted_by_path(r.deep_view()),
        r.deep_view().to_multiset() == v.deep_view().to_multiset(),
{
    let ghost orig = v.deep_view();
    let mut src = v;
    let mut out: Vec<DocInfo> = Vec::new();
    proof {
        assert(out.deep_view() =~= Seq::<DocInfoView>::empty());
        assert(Seq::<DocInfoView>::empty().to_multiset() =~= Multiset::<DocInfoView>::empty());
        assert(out.deep_view().to_multiset().add(src.deep_view().to_multiset()) =~= orig.to_multiset());
    }
    while src.len() > 0
        invariant
            sorted_by_path(out.deep_view()),
            forall|i: int, j: int|
                0 <= i < out.deep_view().len() && 0 <= j < src.deep_view().len() ==> str_le(
                    #[trigger] out.deep_view()[i].path,
                    #[trigger] src.deep_view()[j].path,
                ),
            out.deep_view().to_multiset().add(src.deep_view().to_multiset()) == orig.to_multiset(),
        decreases src.len(),
    {
        let ghost old_src = src.deep_view();
        let ghost old_out = out.deep_view();
        let m = min_path_index(&src);
        let x = src.remove(m);
        out.push(x);
        proof {
            let xv = x.deep_view();
            assert(xv == old_src[m as int]);
            // views of the shrunken source and the grown output
            assert(src.deep_view() =~= old_src.remove(m as int));
            assert(out.deep_view() =~= old_out.push(xv));
            // the record moved from src to out, so the union is unchanged
            assert(old_src.remove(m as int).to_multiset() == old_src.to_multiset().remove(xv));
            assert(old_out.push(xv).to_multiset() =~= old_out.to_multiset().insert(xv));
            assert(old_src.to_multiset().contains(xv));
            assert(out.deep_view().to_multiset().add(src.deep_view().to_multiset())
                =~= old_out.to_multiset().add(old_src.to_multiset()));
            // the appended record is a lower bound of everything left in src
            assert forall|j: int| 0 <= j < src.deep_view().len() implies str_le(
                xv.path,
                #[trigger] src.deep_view()[j].path,
            ) by {
                if j < m {
                    assert(src.deep_view()[j] == old_src[j]);
                } else {
                    assert(src.deep_view()[j] == old_src[j + 1]);
                }
            }
            // the output stays sorted: the new last element dominates
            assert forall|i: int, j: int|
                0 <= i < j < out.deep_view().len() implies str_le(
                    out.deep_view()[i].path,
                    out.deep_view()[j].path,
                ) by {
                if j < out.deep_view().len() - 1 {
                    assert(out.deep_view()[i] == old_out[i]);
                    assert(out.deep_view()[j] == old_out[j]);
                } else {
                    assert(out.deep_view()[j] == xv);
                    assert(out.deep_view()[i] == old_out[i]);
                }
            }
        }
    }
    proof {
        assert(src.deep_view() =~= Seq::<DocInfoView>::empty());
        assert(src.deep_view().to_multiset() =~= Multiset::<DocInfoView>::empty());
        assert(out.deep_view().to_multiset() =~= out.deep_view().to_multiset().add(
            src.deep_view().to_multiset(),
        ));
    }
    out
}

/// Law: sorting is deterministic on a set of records with pairwise distinct
/// paths — any two path-sorted sequences holding the same records are equal,
/// whatever order the records were discovered or extracted in.
pub proof fn lemma_sorted_rows_unique(s1: Seq<DocInfoView>, s2: Seq<DocInfoView>)
    requires
        sorted_by_path(s1),
        sorted_by_path(s2),
        distinct_paths(s1),
        s1.to_multiset() == s2.to_multiset(),
    ensures
        s1 == s2,
    decreases s1.len(),
{
    assert(s1.len() == s1.to_multiset().len());
    assert(s2.len() == s2.to_multiset().len());
    if s1.len() == 0 {
        assert(s1 =~= s2);
    } else {
        // the heads are the unique least records, so they are equal
        assert(s1.to_multiset().contains(s1[0])) by {
            assert(s1.contains(s1[0]));
        }
        assert(s2.contains(s1[0]));
        let j = choose|j: int| 0 <= j < s2.len() && s2[j] == s1[0];
        assert(s2.to_multiset().contains(s2[0])) by {
            assert(s2.contains(s2[0]));
        }
        assert(s1.contains(s2[0]));
        let i = choose|i: int| 0 <= i < s1.len() && s1[i] == s2[0];
        if s1[0] != s2[0] {
            assert(j != 0);
            assert(i != 0);
            assert(str_le(s2[0].path, s2[j].path));
            assert(str_le(s1[0].path, s1[i].path));
            lemma_str_le_antisym(s1[0].path, s2[0].path);
            assert(s1[i].path == s1[0].path);
            assert(false);
        }
        // drop the equal heads and recurse
        let t1 = s1.drop_first();
        let t2 = s2.drop_first();
        assert(s1.remove(0) =~= t1);
        assert(s2.remove(0) =~= t2);
        assert(t1.to_multiset() == s1.to_multiset().remove(s1[0]));
        assert(t2.to_multiset() == s2.to_multiset().remove(s2[0]));
        assert(t1.to_multiset() == t2.to_multiset());
        assert forall|i2: int, j2: int| 0 <= i2 < j2 < t1.len() implies str_le(
            t1[i2].path,
            t1[j2].path,
        ) && t1[i2].path != t1[j2].path by {
            assert(t1[i2] == s1[i2 + 1]);
            assert(t1[j2] == s1[j2 + 1]);
        }
        assert forall|i2: int, j2: int| 0 <= i2 < j2 < t2.len() implies str_le(
            t2[i2].path,
            t2[j2].path,
        ) by {
            assert(t2[i2] == s2[i2 + 1]);
            assert(t2[j2] == s2[j2 + 1]);
        }
        lemma_sorted_rows_unique(t1, t2);
        assert forall|k: int| 0 <= k < s1.len() implies s1[k] == s2[k] by {
            if k > 0 {
                assert(t1[k - 1] == s1[k]);
                assert(t2[k - 1] == s2[k]);
                assert(t1[k - 1] == t2[k - 1]);
            }
        }
        assert(s1 =~= s2);
    }
}

/// Equal record multisets map to equal image multisets: permuting a record
/// sequence permutes, and never changes, what is extracted from it.
pub proof fn lemma_map_values_multiset<A, B>(s1: Seq<A>, s2: Seq<A>, f: spec_fn(A) -> B)
    requires
        s1.to_multiset() == s2.to_multiset(),
    ensures
        s1.map_values(f).to_multiset() == s2.map_values(f).to_multiset(),
    decreases s1.len(),
{
    assert(s1.len() == s1.to_multiset().len());
    assert(s2.len() == s2.to_multiset().len());
    if s1.len() == 0 {
        assert(s1.map_values(f) =~= Seq::<B>::empty());
        assert(s2.map_values(f) =~= Seq::<B>::empty());
    } else {
        let x = s1[0];
        assert(s1.to_multiset().contains(x)) by {
            assert(s1.contains(x));
        }
        assert(s2.contains(x));
        let j = choose|j: int| 0 <= j < s2.len() && s2[j] == x;
        let t1 = s1.drop_first();
        let t2 = s2.remove(j);
        assert(s1.remove(0) =~= t1);
        assert(t1.to_multiset() == s1.to_multiset().remove(x));
        assert(t2.to_multiset() == s2.to_multiset().remove(x));
        lemma_map_values_multiset(t1, t2, f);
        // mapping commutes with removing one element
        assert(s1.map_values(f).remove(0) =~= t1.map_values(f));
        assert(s2.map_values(f).remove(j) =~= t2.map_values(f));
        assert(s1.map_values(f).remove(0).to_multiset() == s1.map_values(f).to_multiset().remove(
            s1.map_values(f)[0],
        ));
        assert(s2.map_values(f).remove(j).to_multiset() == s2.map_values(f).to_multiset().remove(
            s2.map_values(f)[j],
        ));
        assert(s1.map_values(f)[0] == f(x));
        assert(s2.map_values(f)[j] == f(x));
        let m1 = s1.map_values(f).to_multiset();
        let m2 = s2.map_values(f).to_multiset();
        assert(m1.remove(f(x)) == m2.remove(f(x)));
        assert(m1.contains(f(x))) by {
            assert(s1.map_values(f).contains(s1.map_values(f)[0]));
        }
        assert(m2.contains(f(x))) by {
            assert(s2.map_values(f).contains(s2.map_values(f)[j]));
        }
        assert forall|y: B| true implies m1.count(y) == m2.count(y) by {
            if y == f(x) {
                assert(m1.count(y) == m1.remove(f(x)).count(y) + 1);
                assert(m2.count(y) == m2.remove(f(x)).count(y) + 1);
            } else {
                assert(m1.remove(f(x)).count(y) == m1.count(y));
                assert(m2.remove(f(x)).count(y) == m2.count(y));
            }
        }
        assert(m1 =~= m2);
    }
}

} // verus!
