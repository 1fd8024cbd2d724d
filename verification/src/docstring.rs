//! Extraction of the leading triple-quoted docstring from raw source text.
//!
//! A docstring opens at the very start of the text: an optional run of spaces
//! and tabs, an optional one-character raw/unicode string marker (`r`, `R`,
//! `u`, `U`), then `"""`. Its content runs to the first closing `"""`. Text
//! without such a leading literal yields the empty docstring; that is not an
//! error, the file simply contributes no fields.

use vstd::prelude::*;
use vstd::string::*;

verus! {

/// First index `j >= i` whose character is neither a space nor a tab.
pub open spec fn indent_end(s: Seq<char>, i: int) -> int
    recommends
        0 <= i <= s.len(),
    decreases s.len() - i,
{
    if i < 0 || i >= s.len() {
        s.len() as int
    } else if s[i] != ' ' && s[i] != '\t' {
        i
    } else {
        indent_end(s, i + 1)
    }
}

pub proof fn lemma_indent_end(s: Seq<char>, i: int)
    requires
        0 <= i <= s.len(),
    ensures
        i <= indent_end(s, i) <= s.len(),
        indent_end(s, i) < s.len() ==> s[indent_end(s, i)] != ' ' && s[indent_end(s, i)] != '\t',
        forall|j: int| i <= j < indent_end(s, i) ==> s[j] == ' ' || s[j] == '\t',
    decreases s.len() - i,
{
    if i < s.len() && (s[i] == ' ' || s[i] == '\t') {
        lemma_indent_end(s, i + 1);
    }
}

/// Three double quotes start at `p`.
pub open spec fn triple_quote_at(s: Seq<char>, p: int) -> bool {
    0 <= p && p + 3 <= s.len() && s[p] == '"' && s[p + 1] == '"' && s[p + 2] == '"'
}

/// Index right after the opening `"""` of a leading docstring, if the text
/// starts with one (past indentation and an optional `r`/`u` marker).
pub open spec fn opening_end(s: Seq<char>) -> Option<int> {
    let k = indent_end(s, 0);
    if triple_quote_at(s, k) {
        Some(k + 3)
    } else if k < s.len() && (s[k] == 'r' || s[k] == 'R' || s[k] == 'u' || s[k] == 'U')
        && triple_quote_at(s, k + 1) {
        Some(k + 4)
    } else {
        None
    }
}

/// First index `j >= i` where `"""` starts, or `s.len()` if there is none.
pub open spec fn find_triple(s: Seq<char>, i: int) -> int
    recommends
        0 <= i <= s.len(),
    decreases s.len() - i,
{
    if i < 0 || i >= s.len() {
        s.len() as int
    } else if triple_quote_at(s, i) {
        i
    } else {
        find_triple(s, i + 1)
    }
}

pub proof fn lemma_find_triple(s: Seq<char>, i: int)
    requires
        0 <= i <= s.len(),
    ensures
        i <= find_triple(s, i) <= s.len(),
        find_triple(s, i) < s.len() ==> triple_quote_at(s, find_triple(s, i)),
        forall|j: int| i <= j < find_triple(s, i) ==> !triple_quote_at(s, j),
    decreases s.len() - i,
{
    if i < s.len() && !triple_quote_at(s, i) {
        lemma_find_triple(s, i + 1);
    }
}

/// The content of the leading docstring of `s`, or the empty sequence when
/// `s` has no leading docstring or the opening `"""` is never closed.
pub open spec fn spec_docstring(s: Seq<char>) -> Seq<char> {
    match opening_end(s) {
        Option::None => Seq::empty(),
        Option::Some(p) => {
            let c = find_triple(s, p);
            if c < s.len() {
                s.subrange(p, c)
            } else {
                Seq::empty()
            }
        },
    }
}

/// Decides whether `"""` starts at `p`.
fn is_triple_quote_at(s: &str, p: usize) -> (r: bool)
    requires
        p <= s@.len(),
        s@.len() <= usize::MAX,
    ensures
        r == triple_quote_at(s@, p as int),
{
    let n = s.unicode_len();
    if n >= 3 && p <= n - 3 {
        s.get_char(p) == '"' && s.get_char(p + 1) == '"' && s.get_char(p + 2) == '"'
    } else {
        false
    }
}

/// Pulls the leading triple-quoted docstring out of `code`, returning the
/// empty string when there is none.
pub fn extract_module_docstring(code: &str) -> (r: String)
    ensures
        r@ == spec_docstring(code@),
{
    let n = code.unicode_len();
    // skip the indentation run of spaces and tabs
    let mut k: usize = 0;
    proof {
        lemma_indent_end(code@, 0);
    }
    while k < n
        invariant
            0 <= k <= n,
            n == code@.len(),
            indent_end(code@, 0) == indent_end(code@, k as int),
        ensures
            0 <= k <= n,
            n == code@.len(),
            indent_end(code@, 0) == k,
        decreases n - k,
    {
        let c = code.get_char(k);
        if c != ' ' && c != '\t' {
            proof {
                assert(indent_end(code@, k as int) == k);
            }
            break;
        }
        k = k + 1;
    }
    // the opening quotes, allowing one raw/unicode marker character
    let p: usize;
    if is_triple_quote_at(code, k) {
        p = k + 3;
    } else if k < n {
        let c = code.get_char(k);
        if (c == 'r' || c == 'R' || c == 'u' || c == 'U') && is_triple_quote_at(code, k + 1) {
            p = k + 4;
        } else {
            proof {
                assert(opening_end(code@) is None);
            }
            return String::new();
        }
    } else {
        proof {
            assert(opening_end(code@) is None);
        }
        return String::new();
    }
    proof {
        assert(opening_end(code@) == Some(p as int));
        lemma_find_triple(code@, p as int);
    }
    // the closing quotes
    let mut j: usize = p;
    while j < n
        invariant
            p <= j <= n,
            n == code@.len(),
            find_triple(code@, p as int) == find_triple(code@, j as int),
        ensures
            p <= j <= n,
            n == code@.len(),
            find_triple(code@, p as int) == j,
        decreases n - j,
    {
        if is_triple_quote_at(code, j) {
            proof {
                assert(find_triple(code@, j as int) == j);
            }
            break;
        }
        j = j + 1;
    }
    if j < n {
        let content = code.substring_char(p, j);
        content.to_owned()
    } else {
        String::new()
    }
}

} // verus!
