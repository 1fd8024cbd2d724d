//! The file-system collaborator.
//!
//! The pipeline never touches storage directly: it goes through the
//! `FileSystem` trait, whose three operations carry the narrow contract the
//! pipeline relies on. `FakeFileSystem` is the verified in-memory
//! implementation used for testing; an adapter over the real file system can
//! implement the same trait outside the library.

use vstd::prelude::*;
use vstd::string::*;
use crate::text::{after_last, after_last_index, spec_basename, str_eq_exact};

verus! {

/// Why a file operation was refused.
#[derive(Debug, Clone, Copy, PartialEq, Eq, Structural)]
pub enum FsError {
    /// The path is not an acceptable target document.
    InvalidInput,
    /// No file exists at the path.
    NotFound,
    /// The underlying storage failed.
    Io,
}

/// The file map an association list of `(path, contents)` pairs denotes; a
/// later entry for the same path overrides an earlier one.
pub open spec fn files_view(s: Seq<(String, String)>) -> Map<Seq<char>, Seq<char>>
    decreases s.len(),
{
    if s.len() == 0 {
        Map::empty()
    } else {
        files_view(s.drop_last()).insert(s.last().0@, s.last().1@)
    }
}

/// The extension of the path's final component: what follows its last dot,
/// unless the only dot is the component's leading character.
pub open spec fn spec_extension(p: Seq<char>) -> Option<Seq<char>> {
    let b = spec_basename(p);
    let d = after_last(b, '.');
    if d >= 2 {
        Option::Some(b.subrange(d, b.len() as int))
    } else {
        Option::None
    }
}

/// The path names a candidate source file.
pub open spec fn has_py_ext(p: Seq<char>) -> bool {
    spec_extension(p) == Option::Some("py"@)
}

/// The extension of the path's final component, as `spec_extension` gives it.
pub fn extension_of(p: &str) -> (r: Option<&str>)
    ensures
        match r {
            Option::Some(e) => spec_extension(p@) == Option::Some(e@),
            Option::None => spec_extension(p@) is None,
        },
{
    let n = p.unicode_len();
    let bstart = after_last_index(p, '/');
    let bn = p.substring_char(bstart, n);
    let d = after_last_index(bn, '.');
    let blen = bn.unicode_len();
    if d >= 2 {
        Some(bn.substring_char(d, blen))
    } else {
        None
    }
}

/// Whether the path names a candidate source file (extension exactly `py`).
pub fn is_py_path(p: &str) -> (r: bool)
    ensures
        r == has_py_ext(p@),
{
    match extension_of(p) {
        Option::Some(e) => {
            let r = str_eq_exact(e, "py");
            proof {
                if r {
                    assert(spec_extension(p@) == Option::Some("py"@));
                }
            }
            r
        },
        Option::None => false,
    }
}

/// What the pipeline asks of storage. An implementation's `files` model maps
/// each path it holds to that file's contents.
pub trait FileSystem {
    /// The files the system holds, path to contents. A verified
    /// implementation gives its own model; one written outside the verifier
    /// inherits the default empty model, and the contracts below, which all
    /// speak over this model, are then trusted rather than checked for it.
    open spec fn files(&self) -> Map<Seq<char>, Seq<char>> {
        Map::empty()
    }

    /// The candidate source files under `path`: every returned path carries
    /// the `py` extension and names a file the system holds.
    fn list_py_files(&self, path: &str) -> (r: Vec<String>)
        ensures
            forall|i: int|
                0 <= i < r.deep_view().len() ==> self.files().contains_key(
                    #[trigger] r.deep_view()[i],
                ) && has_py_ext(r.deep_view()[i]),
    ;

    /// Reads a file: success yields exactly the system's contents at `path`;
    /// a failure reports a storage condition, never `InvalidInput`, which is
    /// reserved for the target-name check.
    fn read_to_string(&self, path: &str) -> (r: Result<String, FsError>)
        ensures
            r is Ok ==> self.files().contains_key(path@) && r->Ok_0@ == self.files()[path@],
            r is Err ==> r->Err_0 != FsError::InvalidInput,
    ;

    /// Writes a file whole: success stores exactly `contents` at `path` and
    /// leaves every other file unchanged; failure changes nothing.
    fn write(&mut self, path: &str, contents: &str) -> (r: Result<(), FsError>)
        ensures
            r is Ok ==> final(self).files() == old(self).files().insert(path@, contents@),
            r is Err ==> final(self).files() == old(self).files(),
    ;
}

/// An in-memory file system: a file table plus a log of the write operations
/// performed, for tests to inspect.
pub struct FakeFileSystem {
    pub files: Vec<(String, String)>,
    pub operations: Vec<String>,
}

impl FakeFileSystem {
    /// A fake holding the given files and an empty operation log.
    pub fn new(files: Vec<(String, String)>) -> (r: Self)
        ensures
            r.files@ == files@,
            r.operations@.len() == 0,
    {
        FakeFileSystem { files, operations: Vec::new() }
    }
}

impl Default for FakeFileSystem {
    /// An empty fake file system.
    fn default() -> (r: Self)
        ensures
            r.files@.len() == 0,
            r.operations@.len() == 0,
    {
        FakeFileSystem::new(Vec::new())
    }
}

/// Every path entered in the table is a key of its map view.
proof fn lemma_files_view_contains(s: Seq<(String, String)>, i: int)
    requires
        0 <= i < s.len(),
    ensures
        files_view(s).contains_key(s[i].0@),
    decreases s.len(),
{
    if i < s.len() - 1 {
        lemma_files_view_contains(s.drop_last(), i);
        assert(s.drop_last()[i] == s[i]);
    }
}

/// No later entry names the same path: entry `j` is the one the map view
/// keeps for its path.
pub open spec fn last_entry_for_path(s: Seq<(String, String)>, j: int) -> bool {
    forall|j2: int| j < j2 < s.len() ==> s[j2].0@ != s[j].0@
}

/// `q` is the path of some entry before `before` that is the last entry
/// for its path.
pub open spec fn from_last_entry(s: Seq<(String, String)>, before: int, q: Seq<char>) -> bool {
    exists|j: int| 0 <= j < before && #[trigger] last_entry_for_path(s, j) && s[j].0@ == q
}

proof fn lemma_from_last_entry_weaken(s: Seq<(String, String)>, b1: int, b2: int, q: Seq<char>)
    requires
        from_last_entry(s, b1, q),
        b1 <= b2,
    ensures
        from_last_entry(s, b2, q),
{
    let j = choose|j: int| 0 <= j < b1 && #[trigger] last_entry_for_path(s, j) && s[j].0@ == q;
    assert(0 <= j < b2 && last_entry_for_path(s, j) && s[j].0@ == q);
}

/// Every key of the map view has a defining entry: the last one for that
/// path.
proof fn lemma_files_view_key_entry(s: Seq<(String, String)>, q: Seq<char>)
    requires
        files_view(s).contains_key(q),
    ensures
        exists|j: int| 0 <= j < s.len() && #[trigger] s[j].0@ == q && last_entry_for_path(s, j),
    decreases s.len(),
{
    if s.len() > 0 {
        if s.last().0@ == q {
            assert(s[s.len() - 1].0@ == q && last_entry_for_path(s, s.len() - 1));
        } else {
            assert(files_view(s.drop_last()).contains_key(q));
            lemma_files_view_key_entry(s.drop_last(), q);
            let j = choose|j: int|
                0 <= j < s.drop_last().len() && #[trigger] s.drop_last()[j].0@ == q
                    && last_entry_for_path(s.drop_last(), j);
            assert(s[j].0@ == q);
            assert forall|j2: int| j < j2 < s.len() implies s[j2].0@ != s[j].0@ by {
                if j2 < s.len() - 1 {
                    assert(s.drop_last()[j2] == s[j2]);
                }
            }
            assert(s[j].0@ == q && last_entry_for_path(s, j));
        }
    }
}

impl FileSystem for FakeFileSystem {
    open spec fn files(&self) -> Map<Seq<char>, Seq<char>> {
        files_view(self.files@)
    }

    /// Ignores the root, as the whole table stands for one tree. The result
    /// is exactly the held paths with the `py` extension, once each: each
    /// path is taken at its last entry, the one the map view keeps.
    fn list_py_files(&self, path: &str) -> (r: Vec<String>)
        ensures
            forall|q: Seq<char>|
                self.files().contains_key(q) && has_py_ext(q) ==> r.deep_view().contains(q),
            forall|k1: int, k2: int|
                0 <= k1 < k2 < r.deep_view().len() ==> r.deep_view()[k1] != r.deep_view()[k2],
    {
        let n = self.files.len();
        let mut r: Vec<String> = Vec::new();
        let mut i: usize = 0;
        while i < n
            invariant
                0 <= i <= n,
                n == self.files@.len(),
                forall|k: int|
                    0 <= k < r.deep_view().len() ==> self.files().contains_key(
                        #[trigger] r.deep_view()[k],
                    ) && has_py_ext(r.deep_view()[k]),
                forall|k: int|
                    0 <= k < r.deep_view().len() ==> from_last_entry(
                        self.files@,
                        i as int,
                        #[trigger] r.deep_view()[k],
                    ),
                forall|j: int|
                    0 <= j < i && last_entry_for_path(self.files@, j) && has_py_ext(
                        #[trigger] self.files@[j].0@,
                    ) ==> r.deep_view().contains(self.files@[j].0@),
                forall|k1: int, k2: int|
                    0 <= k1 < k2 < r.deep_view().len() ==> r.deep_view()[k1] != r.deep_view()[k2],
            decreases n - i,
        {
            let ghost old_r = r.deep_view();
            let ghost key = self.files@[i as int].0@;
            let mut pushed = false;
            if is_py_path(self.files[i].0.as_str()) {
                // keep the entry only if no later one names the same path
                let mut dup = false;
                let mut j = i + 1;
                while j < n
                    invariant_except_break
                        !dup,
                    invariant
                        i < j <= n,
                        i < n,
                        n == self.files@.len(),
                        !dup ==> forall|j2: int|
                            i < j2 < j ==> self.files@[j2].0@ != self.files@[i as int].0@,
                    ensures
                        dup ==> !last_entry_for_path(self.files@, i as int),
                        !dup ==> last_entry_for_path(self.files@, i as int),
                    decreases n - j,
                {
                    if str_eq_exact(self.files[j].0.as_str(), self.files[i].0.as_str()) {
                        proof {
                            assert(self.files@[j as int].0@ == self.files@[i as int].0@);
                        }
                        dup = true;
                        break;
                    }
                    j = j + 1;
                }
                if !dup {
                    let p = self.files[i].0.clone();
                    r.push(p);
                    pushed = true;
                    proof {
                        lemma_files_view_contains(self.files@, i as int);
                        assert(r.deep_view() =~= old_r.push(key));
                        // an equal element already listed would come from an
                        // earlier entry that this one shows was not last
                        assert forall|k1: int, k2: int|
                            0 <= k1 < k2 < r.deep_view().len() implies r.deep_view()[k1]
                            != r.deep_view()[k2] by {
                            if k2 == r.deep_view().len() - 1 {
                                assert(r.deep_view()[k1] == old_r[k1]);
                                if old_r[k1] == key {
                                    assert(from_last_entry(self.files@, i as int, key));
                                    let j0 = choose|j0: int|
                                        0 <= j0 < i && #[trigger] last_entry_for_path(
                                            self.files@,
                                            j0,
                                        ) && self.files@[j0].0@ == key;
                                    assert(self.files@[i as int].0@ == self.files@[j0].0@);
                                    assert(false);
                                }
                            } else {
                                assert(r.deep_view()[k1] == old_r[k1]);
                                assert(r.deep_view()[k2] == old_r[k2]);
                            }
                        }
                        assert(r.deep_view()[r.deep_view().len() - 1] == key);
                        assert(r.deep_view().contains(key));
                    }
                }
            }
            proof {
                if !pushed {
                    assert(r.deep_view() == old_r);
                    // an entry that is skipped is not a candidate's last entry
                    assert(!(last_entry_for_path(self.files@, i as int) && has_py_ext(key)));
                }
                // what was listed stays listed, now witnessed below `i + 1`
                assert forall|q: Seq<char>| old_r.contains(q) implies r.deep_view().contains(
                    q,
                ) by {
                    let w = choose|w: int| 0 <= w < old_r.len() && old_r[w] == q;
                    assert(r.deep_view()[w] == q);
                }
                assert forall|k: int| 0 <= k < r.deep_view().len() implies from_last_entry(
                    self.files@,
                    i + 1,
                    #[trigger] r.deep_view()[k],
                ) by {
                    if k < old_r.len() {
                        assert(r.deep_view()[k] == old_r[k]);
                        lemma_from_last_entry_weaken(
                            self.files@,
                            i as int,
                            i + 1,
                            old_r[k],
                        );
                    } else {
                        assert(r.deep_view()[k] == key);
                        assert(last_entry_for_path(self.files@, i as int));
                        assert(self.files@[i as int].0@ == key);
                    }
                }
            }
            i = i + 1;
        }
        proof {
            // every held candidate path has a last entry, which the loop kept
            assert forall|q: Seq<char>|
                self.files().contains_key(q) && has_py_ext(q) implies r.deep_view().contains(
                q,
            ) by {
                lemma_files_view_key_entry(self.files@, q);
                let j = choose|j: int|
                    0 <= j < self.files@.len() && #[trigger] self.files@[j].0@ == q
                        && last_entry_for_path(self.files@, j);
                assert(r.deep_view().contains(self.files@[j].0@));
            }
        }
        r
    }

    /// The last entry for `path` wins, matching the map view: a held path
    /// yields its contents, a missing one `NotFound`.
    fn read_to_string(&self, path: &str) -> (r: Result<String, FsError>)
        ensures
            self.files().contains_key(path@) <==> r is Ok,
            r is Ok ==> r->Ok_0@ == self.files()[path@],
            r is Err ==> r->Err_0 == FsError::NotFound,
    {
        let mut i = self.files.len();
        proof {
            assert(self.files@.take(self.files@.len() as int) =~= self.files@);
        }
        while i > 0
            invariant
                0 <= i <= self.files@.len(),
                files_view(self.files@).contains_key(path@) == files_view(
                    self.files@.take(i as int),
                ).contains_key(path@),
                files_view(self.files@).contains_key(path@) ==> files_view(self.files@)[path@]
                    == files_view(self.files@.take(i as int))[path@],
            decreases i,
        {
            proof {
                assert(self.files@.take(i as int).drop_last() =~= self.files@.take(i - 1));
                assert(self.files@.take(i as int).last() == self.files@[i - 1]);
            }
            if str_eq_exact(self.files[i - 1].0.as_str(), path) {
                return Ok(self.files[i - 1].1.clone());
            }
            i = i - 1;
        }
        proof {
            assert(self.files@.take(0) =~= Seq::<(String, String)>::empty());
        }
        Err(FsError::NotFound)
    }

    /// Appends the pair, which the map view reads as an overriding insert,
    /// and logs the operation. Never fails.
    fn write(&mut self, path: &str, contents: &str) -> (r: Result<(), FsError>)
        ensures
            r is Ok,
            final(self).files() == old(self).files().insert(path@, contents@),
            final(self).operations.deep_view() == old(self).operations.deep_view().push(
                "write: `"@ + path@ + "`"@,
            ),
    {
        let ghost old_ops = self.operations.deep_view();
        let mut op = ("write: `").to_owned();
        op.append(path);
        op.append("`");
        self.operations.push(op);
        let ghost old_files = self.files@;
        self.files.push((path.to_owned(), contents.to_owned()));
        proof {
            assert(self.files@.drop_last() =~= old_files);
            assert(self.operations.deep_view() =~= old_ops.push("write: `"@ + path@ + "`"@));
        }
        Ok(())
    }
}

} // verus!
