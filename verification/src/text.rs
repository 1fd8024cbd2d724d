//! Character and string utilities shared by the parsing and rendering code:
//! line splitting, whitespace trimming, prefix tests, case-insensitive
//! search, and a lexicographic order on strings.

use vstd::prelude::*;
use vstd::string::*;

verus! {

/// The characters Rust's `char::is_whitespace` accepts (Unicode `White_Space`).
pub open spec fn is_ws_char(c: char) -> bool {
    c == ' ' || c == '\t' || c == '\n' || c == '\r' || c == '\u{b}' || c == '\u{c}'
        || c == '\u{85}' || c == '\u{a0}' || c == '\u{1680}' || c == '\u{2000}'
        || c == '\u{2001}' || c == '\u{2002}' || c == '\u{2003}' || c == '\u{2004}'
        || c == '\u{2005}' || c == '\u{2006}' || c == '\u{2007}' || c == '\u{2008}'
        || c == '\u{2009}' || c == '\u{200a}' || c == '\u{2028}' || c == '\u{2029}'
        || c == '\u{202f}' || c == '\u{205f}' || c == '\u{3000}'
}

pub fn is_ws(c: char) -> (r: bool)
    ensures
        r == is_ws_char(c),
{
    c == ' ' || c == '\t' || c == '\n' || c == '\r' || c == '\u{b}' || c == '\u{c}'
        || c == '\u{85}' || c == '\u{a0}' || c == '\u{1680}' || c == '\u{2000}'
        || c == '\u{2001}' || c == '\u{2002}' || c == '\u{2003}' || c == '\u{2004}'
        || c == '\u{2005}' || c == '\u{2006}' || c == '\u{2007}' || c == '\u{2008}'
        || c == '\u{2009}' || c == '\u{200a}' || c == '\u{2028}' || c == '\u{2029}'
        || c == '\u{202f}' || c == '\u{205f}' || c == '\u{3000}'
}

/// ASCII lower-casing of one character; all other characters are unchanged.
pub open spec fn lower_char(c: char) -> char {
    match c {
        'A' => 'a',
        'B' => 'b',
        'C' => 'c',
        'D' => 'd',
        'E' => 'e',
        'F' => 'f',
        'G' => 'g',
        'H' => 'h',
        'I' => 'i',
        'J' => 'j',
        'K' => 'k',
        'L' => 'l',
        'M' => 'm',
        'N' => 'n',
        'O' => 'o',
        'P' => 'p',
        'Q' => 'q',
        'R' => 'r',
        'S' => 's',
        'T' => 't',
        'U' => 'u',
        'V' => 'v',
        'W' => 'w',
        'X' => 'x',
        'Y' => 'y',
        'Z' => 'z',
        _ => c,
    }
}

pub fn to_lower_char(c: char) -> (r: char)
    ensures
        r == lower_char(c),
{
    match c {
        'A' => 'a',
        'B' => 'b',
        'C' => 'c',
        'D' => 'd',
        'E' => 'e',
        'F' => 'f',
        'G' => 'g',
        'H' => 'h',
        'I' => 'i',
        'J' => 'j',
        'K' => 'k',
        'L' => 'l',
        'M' => 'm',
        'N' => 'n',
        'O' => 'o',
        'P' => 'p',
        'Q' => 'q',
        'R' => 'r',
        'S' => 's',
        'T' => 't',
        'U' => 'u',
        'V' => 'v',
        'W' => 'w',
        'X' => 'x',
        'Y' => 'y',
        'Z' => 'z',
        _ => c,
    }
}

/// First index `j >= i` where `s[j] == '\n'`, or `s.len()` if there is none.
pub open spec fn find_nl(s: Seq<char>, i: int) -> int
    recommends
        0 <= i <= s.len(),
    decreases s.len() - i,
{
    if i < 0 || i >= s.len() {
        s.len() as int
    } else if s[i] == '\n' {
        i
    } else {
        find_nl(s, i + 1)
    }
}

pub proof fn lemma_find_nl(s: Seq<char>, i: int)
    requires
        0 <= i <= s.len(),
    ensures
        i <= find_nl(s, i) <= s.len(),
        find_nl(s, i) < s.len() ==> s[find_nl(s, i)] == '\n',
        forall|j: int| i <= j < find_nl(s, i) ==> s[j] != '\n',
    decreases s.len() - i,
{
    if i < s.len() && s[i] != '\n' {
        lemma_find_nl(s, i + 1);
    }
}

/// The lines of `s`, as Rust's `str::lines` yields them: split at `'\n'`,
/// one trailing `'\r'` stripped from each terminated line, and no empty
/// final line when the text ends with a terminator.
pub open spec fn spec_lines(s: Seq<char>) -> Seq<Seq<char>>
    decreases s.len(),
{
    if s.len() == 0 {
        Seq::empty()
    } else {
        let j = find_nl(s, 0);
        if 0 <= j && j < s.len() {
            let line = if j > 0 && s[j - 1] == '\r' {
                s.subrange(0, j - 1)
            } else {
                s.subrange(0, j)
            };
            seq![line] + spec_lines(s.subrange(j + 1, s.len() as int))
        } else {
            seq![s]
        }
    }
}

/// No line holds a `'\n'`.
pub proof fn lemma_lines_newline_free(s: Seq<char>)
    ensures
        forall|i: int, k: int|
            0 <= i < spec_lines(s).len() && 0 <= k < spec_lines(s)[i].len()
                ==> spec_lines(s)[i][k] != '\n',
    decreases s.len(),
{
    if s.len() > 0 {
        let j = find_nl(s, 0);
        lemma_find_nl(s, 0);
        if j < s.len() {
            lemma_lines_newline_free(s.subrange(j + 1, s.len() as int));
            assert forall|i: int, k: int|
                0 <= i < spec_lines(s).len() && 0 <= k < spec_lines(s)[i].len()
                    implies spec_lines(s)[i][k] != '\n' by {
                if i == 0 {
                    assert(spec_lines(s)[0][k] == s[k]);
                } else {
                    assert(spec_lines(s)[i] == spec_lines(s.subrange(j + 1, s.len() as int))[i - 1]);
                }
            }
        }
    }
}

/// First index of `'\n'` in `s@` at or past `from`, or the length if none.
pub fn find_newline(s: &str, from: usize) -> (r: usize)
    requires
        from <= s@.len(),
        s@.len() <= usize::MAX,
    ensures
        r == find_nl(s@, from as int),
{
    let n = s.unicode_len();
    let mut i = from;
    while i < n
        invariant
            from <= i <= n,
            n == s@.len(),
            find_nl(s@, from as int) == find_nl(s@, i as int),
        decreases n - i,
    {
        let c = s.get_char(i);
        if c == '\n' {
            return i;
        }
        i = i + 1;
    }
    i
}

/// Splits `s` into its lines, exactly as `spec_lines` describes.
pub fn split_lines(s: &str) -> (r: Vec<String>)
    ensures
        r.deep_view() == spec_lines(s@),
{
    let n = s.unicode_len();
    let mut r: Vec<String> = Vec::new();
    let mut start: usize = 0;
    proof {
        assert(s@.subrange(0, n as int) =~= s@);
        assert(r.deep_view() =~= Seq::<Seq<char>>::empty());
        assert(r.deep_view() + spec_lines(s@) =~= spec_lines(s@));
    }
    while start < n
        invariant
            start <= n,
            n == s@.len(),
            r.deep_view() + spec_lines(s@.subrange(start as int, n as int)) =~= spec_lines(s@),
        decreases n - start,
    {
        let ghost old_r = r.deep_view();
        let ghost rest = s@.subrange(start as int, n as int);
        let j = find_newline(s, start);
        proof {
            lemma_find_nl(s@, start as int);
            assert(rest.len() > 0);
            // find_nl over the suffix mirrors find_nl over s from start
            lemma_find_nl_subrange(s@, start as int, n as int);
        }
        if j == n {
            let line = s.substring_char(start, n);
            let owned = line.to_owned();
            r.push(owned);
            proof {
                assert(find_nl(rest, 0) == rest.len());
                assert(spec_lines(rest) =~= seq![rest]);
                assert(r.deep_view() =~= old_r.push(rest));
                assert(s@.subrange(n as int, n as int) =~= Seq::<char>::empty());
                assert(spec_lines(s@.subrange(n as int, n as int)) =~= Seq::<Seq<char>>::empty());
                assert(old_r + spec_lines(rest) =~= old_r.push(rest));
                assert(r.deep_view() + spec_lines(s@.subrange(n as int, n as int))
                    =~= spec_lines(s@));
            }
            start = n;
        } else {
            let line_end = if j > start && s.get_char(j - 1) == '\r' {
                j - 1
            } else {
                j
            };
            let line = s.substring_char(start, line_end);
            let owned = line.to_owned();
            r.push(owned);
            proof {
                let jr = find_nl(rest, 0);
                assert(jr == j - start);
                assert(0 <= jr < rest.len());
                let rest2 = s@.subrange(j + 1, n as int);
                assert(rest.subrange(jr + 1, rest.len() as int) =~= rest2);
                let sline = spec_lines(rest)[0];
                if jr > 0 && rest[jr - 1] == '\r' {
                    assert(rest.subrange(0, jr - 1) =~= s@.subrange(start as int, j - 1));
                    assert(sline == rest.subrange(0, jr - 1));
                } else {
                    assert(rest.subrange(0, jr) =~= s@.subrange(start as int, j as int));
                    assert(sline == rest.subrange(0, jr));
                }
                assert(line@ == sline);
                assert(spec_lines(rest) =~= seq![sline] + spec_lines(rest2));
                assert(r.deep_view() =~= old_r.push(sline));
                assert(r.deep_view() + spec_lines(rest2) =~= old_r + spec_lines(rest));
                assert(r.deep_view() + spec_lines(s@.subrange(j + 1, n as int))
                    =~= spec_lines(s@));
            }
            start = j + 1;
        }
    }
    proof {
        assert(s@.subrange(start as int, n as int) =~= Seq::<char>::empty());
        assert(spec_lines(s@.subrange(start as int, n as int)) =~= Seq::<Seq<char>>::empty());
        assert(r.deep_view() =~= r.deep_view() + Seq::<Seq<char>>::empty());
        assert(r.deep_view() =~= spec_lines(s@));
    }
    r
}

/// First index `j >= i` whose character is not whitespace, or `s.len()`.
pub open spec fn ws_end(s: Seq<char>, i: int) -> int
    recommends
        0 <= i <= s.len(),
    decreases s.len() - i,
{
    if i < 0 || i >= s.len() {
        s.len() as int
    } else if !is_ws_char(s[i]) {
        i
    } else {
        ws_end(s, i + 1)
    }
}

pub proof fn lemma_ws_end(s: Seq<char>, i: int)
    requires
        0 <= i <= s.len(),
    ensures
        i <= ws_end(s, i) <= s.len(),
        ws_end(s, i) < s.len() ==> !is_ws_char(s[ws_end(s, i)]),
        forall|j: int| i <= j < ws_end(s, i) ==> is_ws_char(s[j]),
    decreases s.len() - i,
{
    if i < s.len() && is_ws_char(s[i]) {
        lemma_ws_end(s, i + 1);
    }
}

/// What `str::trim_start` leaves of `s`.
pub open spec fn spec_trim_start(s: Seq<char>) -> Seq<char> {
    s.subrange(ws_end(s, 0), s.len() as int)
}

/// The leading-whitespace-trimmed tail of `s`.
pub fn trim_start_of(s: &str) -> (r: &str)
    ensures
        r@ == spec_trim_start(s@),
{
    let n = s.unicode_len();
    let mut i: usize = 0;
    proof {
        lemma_ws_end(s@, 0);
    }
    while i < n
        invariant
            0 <= i <= n,
            n == s@.len(),
            ws_end(s@, 0) == ws_end(s@, i as int),
        ensures
            0 <= i <= n,
            n == s@.len(),
            ws_end(s@, 0) == i,
        decreases n - i,
    {
        let c = s.get_char(i);
        if !is_ws(c) {
            proof {
                assert(ws_end(s@, i as int) == i);
            }
            break;
        }
        i = i + 1;
    }
    s.substring_char(i, n)
}

/// `p` is a prefix of `s`.
pub open spec fn has_prefix(s: Seq<char>, p: Seq<char>) -> bool {
    p.len() <= s.len() && s.subrange(0, p.len() as int) == p
}

pub fn starts_with_str(s: &str, p: &str) -> (r: bool)
    ensures
        r == has_prefix(s@, p@),
{
    let n = s.unicode_len();
    let m = p.unicode_len();
    if m > n {
        proof {
            assert(!has_prefix(s@, p@));
        }
        return false;
    }
    let mut i: usize = 0;
    while i < m
        invariant
            0 <= i <= m <= n,
            n == s@.len(),
            m == p@.len(),
            forall|j: int| 0 <= j < i ==> s@[j] == p@[j],
        decreases m - i,
    {
        if s.get_char(i) != p.get_char(i) {
            proof {
                assert(s@.subrange(0, m as int)[i as int] != p@[i as int]);
            }
            return false;
        }
        i = i + 1;
    }
    proof {
        assert(s@.subrange(0, m as int) =~= p@);
    }
    true
}

/// The characters of `s` starting at `i` spell `p`, ASCII case-insensitively.
pub open spec fn matches_lower_at(s: Seq<char>, i: int, p: Seq<char>) -> bool {
    forall|j: int| 0 <= j < p.len() ==> lower_char(s[i + j]) == p[j]
}

/// `s` contains `p` (given in lower case), ASCII case-insensitively.
pub open spec fn contains_lower(s: Seq<char>, p: Seq<char>) -> bool {
    exists|i: int| 0 <= i && i + p.len() <= s.len() && matches_lower_at(s, i, p)
}

/// Case-insensitive search for `p` (which must be lower case) in `s`.
pub fn contains_ignore_case(s: &str, p: &str) -> (r: bool)
    ensures
        r == contains_lower(s@, p@),
{
    let n = s.unicode_len();
    let m = p.unicode_len();
    if m > n {
        proof {
            assert(!contains_lower(s@, p@));
        }
        return false;
    }
    let mut i: usize = 0;
    while i <= n - m
        invariant
            0 <= i,
            i <= n - m + 1,
            m <= n,
            n == s@.len(),
            m == p@.len(),
            forall|i0: int| 0 <= i0 < i ==> !matches_lower_at(s@, i0, p@),
        decreases n + 1 - i,
    {
        let mut j: usize = 0;
        let mut ok = true;
        while j < m
            invariant
                0 <= j <= m,
                i + m <= n,
                n == s@.len(),
                m == p@.len(),
                ok ==> forall|j0: int| 0 <= j0 < j ==> lower_char(s@[i + j0]) == p@[j0],
                !ok ==> !matches_lower_at(s@, i as int, p@),
            ensures
                ok ==> matches_lower_at(s@, i as int, p@),
                !ok ==> !matches_lower_at(s@, i as int, p@),
            decreases m - j,
        {
            let cs = to_lower_char(s.get_char(i + j));
            let cp = p.get_char(j);
            if cs != cp {
                proof {
                    assert(lower_char(s@[i + j as int]) != p@[j as int]);
                }
                ok = false;
                break;
            }
            j = j + 1;
        }
        if ok {
            return true;
        }
        i = i + 1;
    }
    proof {
        assert forall|i0: int| 0 <= i0 && i0 + p@.len() <= s@.len()
            implies !matches_lower_at(s@, i0, p@) by {
            assert(i0 < i);
        }
    }
    false
}

/// Lexicographic order on character sequences, by code point.
pub open spec fn str_le(a: Seq<char>, b: Seq<char>) -> bool
    decreases a.len(),
{
    if a.len() == 0 {
        true
    } else if b.len() == 0 {
        false
    } else if a[0] == b[0] {
        str_le(a.skip(1), b.skip(1))
    } else {
        (a[0] as int) < (b[0] as int)
    }
}

pub proof fn lemma_str_le_total(a: Seq<char>, b: Seq<char>)
    ensures
        str_le(a, b) || str_le(b, a),
    decreases a.len(),
{
    if a.len() == 0 {
    } else if b.len() == 0 {
    } else if a[0] == b[0] {
        lemma_str_le_total(a.skip(1), b.skip(1));
    } else {
        assert(a[0] as int != b[0] as int);
    }
}

pub proof fn lemma_str_le_antisym(a: Seq<char>, b: Seq<char>)
    requires
        str_le(a, b),
        str_le(b, a),
    ensures
        a == b,
    decreases a.len(),
{
    if a.len() == 0 {
        assert(b.len() == 0);
        assert(a =~= b);
    } else {
        assert(b.len() > 0);
        if a[0] == b[0] {
            lemma_str_le_antisym(a.skip(1), b.skip(1));
            assert(a =~= seq![a[0]] + a.skip(1));
            assert(b =~= seq![b[0]] + b.skip(1));
        } else {
            assert(false);
        }
    }
}

pub proof fn lemma_str_le_trans(a: Seq<char>, b: Seq<char>, c: Seq<char>)
    requires
        str_le(a, b),
        str_le(b, c),
    ensures
        str_le(a, c),
    decreases a.len(),
{
    if a.len() > 0 && b.len() > 0 && c.len() > 0 {
        if a[0] == b[0] && b[0] == c[0] {
            lemma_str_le_trans(a.skip(1), b.skip(1), c.skip(1));
        }
    }
}

/// When the first `i` characters agree, the order is decided by the tails.
proof fn lemma_str_le_common_prefix(a: Seq<char>, b: Seq<char>, i: int)
    requires
        0 <= i <= a.len(),
        i <= b.len(),
        forall|j: int| 0 <= j < i ==> a[j] == b[j],
    ensures
        str_le(a, b) == str_le(a.skip(i), b.skip(i)),
    decreases i,
{
    if i == 0 {
        assert(a.skip(0) =~= a);
        assert(b.skip(0) =~= b);
    } else {
        assert(a.len() > 0 && b.len() > 0);
        assert(a[0] == b[0]);
        assert forall|j: int| 0 <= j < i - 1 implies a.skip(1)[j] == b.skip(1)[j] by {
            assert(a[j + 1] == b[j + 1]);
        }
        lemma_str_le_common_prefix(a.skip(1), b.skip(1), i - 1);
        assert(a.skip(1).skip(i - 1) =~= a.skip(i));
        assert(b.skip(1).skip(i - 1) =~= b.skip(i));
    }
}

/// Decides `str_le(a@, b@)`.
pub fn str_le_exec(a: &str, b: &str) -> (r: bool)
    ensures
        r == str_le(a@, b@),
{
    let n = a.unicode_len();
    let m = b.unicode_len();
    let mut i: usize = 0;
    while i < n && i < m
        invariant
            0 <= i <= n,
            i <= m,
            n == a@.len(),
            m == b@.len(),
            forall|j: int| 0 <= j < i ==> a@[j] == b@[j],
        decreases n - i,
    {
        let ca = a.get_char(i);
        let cb = b.get_char(i);
        if ca != cb {
            proof {
                lemma_str_le_common_prefix(a@, b@, i as int);
                assert(a@.skip(i as int)[0] == a@[i as int]);
                assert(b@.skip(i as int)[0] == b@[i as int]);
            }
            return (ca as u32) < (cb as u32);
        }
        i = i + 1;
    }
    proof {
        lemma_str_le_common_prefix(a@, b@, i as int);
        if i == n {
            assert(a@.skip(i as int).len() == 0);
        } else {
            assert(b@.skip(i as int).len() == 0);
            assert(a@.skip(i as int).len() > 0);
        }
    }
    n <= m
}

/// Index right after the last occurrence of `c` in `s`, or `0` when `s` has
/// none.
pub open spec fn after_last(s: Seq<char>, c: char) -> int
    decreases s.len(),
{
    if s.len() == 0 {
        0
    } else if s.last() == c {
        s.len() as int
    } else {
        after_last(s.drop_last(), c)
    }
}

/// The final path component of `s`: everything after the last `'/'`.
pub open spec fn spec_basename(s: Seq<char>) -> Seq<char> {
    s.subrange(after_last(s, '/'), s.len() as int)
}

pub proof fn lemma_after_last(s: Seq<char>, c: char)
    ensures
        0 <= after_last(s, c) <= s.len(),
        after_last(s, c) > 0 ==> s[after_last(s, c) - 1] == c,
        forall|j: int| after_last(s, c) <= j < s.len() ==> s[j] != c,
    decreases s.len(),
{
    if s.len() > 0 && s.last() != c {
        lemma_after_last(s.drop_last(), c);
        assert forall|j: int| after_last(s, c) <= j < s.len() implies s[j] != c by {
            if j < s.len() - 1 {
                assert(s.drop_last()[j] == s[j]);
            }
        }
    }
}

/// Any index with the properties of `after_last` is `after_last`.
pub proof fn lemma_after_last_unique(s: Seq<char>, c: char, i: int)
    requires
        0 <= i <= s.len(),
        i > 0 ==> s[i - 1] == c,
        forall|j: int| i <= j < s.len() ==> s[j] != c,
    ensures
        i == after_last(s, c),
{
    lemma_after_last(s, c);
    let b = after_last(s, c);
    if i < b {
        assert(s[b - 1] == c);
    } else if i > b {
        assert(s[i - 1] == c);
    }
}

/// Index right after the last occurrence of `c`, or `0` when there is none.
pub fn after_last_index(s: &str, c: char) -> (r: usize)
    ensures
        r == after_last(s@, c),
        0 <= r <= s@.len(),
{
    let n = s.unicode_len();
    let mut i = n;
    while i > 0
        invariant
            0 <= i <= n,
            n == s@.len(),
            forall|j: int| i <= j < n ==> s@[j] != c,
        ensures
            0 <= i <= n,
            n == s@.len(),
            i > 0 ==> s@[i - 1] == c,
            forall|j: int| i <= j < n ==> s@[j] != c,
        decreases i,
    {
        if s.get_char(i - 1) == c {
            break;
        }
        i = i - 1;
    }
    proof {
        lemma_after_last_unique(s@, c, i as int);
    }
    i
}

/// The final path component of `s`, after its last `'/'`.
pub fn basename_of(s: &str) -> (r: &str)
    ensures
        r@ == spec_basename(s@),
{
    let n = s.unicode_len();
    let i = after_last_index(s, '/');
    s.substring_char(i, n)
}

/// Decides whether two strings spell the same characters.
pub fn str_eq_exact(a: &str, b: &str) -> (r: bool)
    ensures
        r == (a@ == b@),
{
    let n = a.unicode_len();
    let m = b.unicode_len();
    if n != m {
        return false;
    }
    let mut i: usize = 0;
    while i < n
        invariant
            0 <= i <= n,
            n == a@.len(),
            n == b@.len(),
            forall|j: int| 0 <= j < i ==> a@[j] == b@[j],
        decreases n - i,
    {
        if a.get_char(i) != b.get_char(i) {
            return false;
        }
        i = i + 1;
    }
    proof {
        assert(a@ =~= b@);
    }
    true
}

/// `s` holds no line break.
pub open spec fn newline_free(s: Seq<char>) -> bool {
    forall|i: int| 0 <= i < s.len() ==> s[i] != '\n'
}

/// Texts without line breaks concatenate to a text without one.
pub proof fn lemma_nf_concat(a: Seq<char>, b: Seq<char>)
    requires
        newline_free(a),
        newline_free(b),
    ensures
        newline_free(a + b),
{
    assert forall|i: int| 0 <= i < (a + b).len() implies (a + b)[i] != '\n' by {
        if i < a.len() {
            assert((a + b)[i] == a[i]);
        } else {
            assert((a + b)[i] == b[i - a.len()]);
        }
    }
}

/// ASCII lower-casing of a whole string.
pub open spec fn lower_seq(s: Seq<char>) -> Seq<char> {
    s.map_values(|c: char| lower_char(c))
}

/// Decides whether `s`, lower-cased, spells `target` (given in lower case).
pub fn eq_lower(s: &str, target: &str) -> (r: bool)
    ensures
        r == (lower_seq(s@) == target@),
{
    let n = s.unicode_len();
    let m = target.unicode_len();
    if n != m {
        proof {
            assert(lower_seq(s@).len() == s@.len());
        }
        return false;
    }
    let mut i: usize = 0;
    while i < n
        invariant
            0 <= i <= n,
            n == s@.len(),
            n == target@.len(),
            forall|j: int| 0 <= j < i ==> lower_char(s@[j]) == target@[j],
        decreases n - i,
    {
        if to_lower_char(s.get_char(i)) != target.get_char(i) {
            proof {
                assert(lower_seq(s@)[i as int] == lower_char(s@[i as int]));
            }
            return false;
        }
        i = i + 1;
    }
    proof {
        assert(lower_seq(s@) =~= target@);
    }
    true
}

/// `find_nl` looked at through a subrange that starts at `i`.
pub proof fn lemma_find_nl_subrange(s: Seq<char>, i: int, n: int)
    requires
        0 <= i <= n,
        n == s.len(),
    ensures
        find_nl(s.subrange(i, n), 0) == find_nl(s, i) - i,
{
    lemma_find_nl_subrange_aux(s, i, i, n);
}

proof fn lemma_find_nl_subrange_aux(s: Seq<char>, i: int, k: int, n: int)
    requires
        0 <= i <= k <= n,
        n == s.len(),
    ensures
        find_nl(s.subrange(i, n), k - i) == find_nl(s, k) - i,
    decreases n - k,
{
    let sub = s.subrange(i, n);
    if k < n && s[k] != '\n' {
        lemma_find_nl_subrange_aux(s, i, k + 1, n);
    }
}

} // verus!

