use vstd::prelude::*;

use crate::lines::chars_of;
use crate::select::{lemma_select_step, select};
use crate::text::{join_spec, path_join};

verus! {

/// One file or directory of an extracted crate.
#[derive(Clone, Debug)]
pub struct FileEntry {
    pub relative_path: String,
    pub size: u64,
    pub is_dir: bool,
}

/// `p` occurs in `s` at position `k`.
pub open spec fn at(s: Seq<char>, p: Seq<char>, k: int) -> bool {
    0 <= k && k + p.len() <= s.len() && s.subrange(k, k + p.len()) == p
}

/// `p` occurs somewhere in `s`.
pub open spec fn contains(s: Seq<char>, p: Seq<char>) -> bool {
    exists|k: int| at(s, p, k)
}

/// A `**` starts at position `a` of the pattern.
pub open spec fn double_star_at(p: Seq<char>, a: int) -> bool {
    0 <= a && a + 1 < p.len() && p[a] == '*' && p[a + 1] == '*'
}

/// Whether the pattern from position `a` on matches the path from position
/// `b` on, the match being free to stop anywhere in the path:
/// - `**` matches any run of characters, `/` included, and `**/` may also
///   match nothing at all (so `src/**/*.rs` covers `src/lib.rs`);
/// - `*` matches any run of characters other than `/`;
/// - any other character matches itself.
pub open spec fn glob_from(p: Seq<char>, a: int, s: Seq<char>, b: int) -> bool
    decreases p.len() - a, s.len() - b,
{
    if a >= p.len() {
        true
    } else if double_star_at(p, a) {
        ||| glob_from(p, a + 2, s, b)
        ||| (b < s.len() && glob_from(p, a, s, b + 1))
        ||| (a + 2 < p.len() && p[a + 2] == '/' && glob_from(p, a + 3, s, b))
    } else if p[a] == '*' {
        ||| glob_from(p, a + 1, s, b)
        ||| (b < s.len() && s[b] != '/' && glob_from(p, a, s, b + 1))
    } else {
        b < s.len() && s[b] == p[a] && glob_from(p, a + 1, s, b + 1)
    }
}

/// A path matches a pattern when some part of it does: the pattern is
/// looked for inside the path, as a plain text would be.
pub open spec fn glob_spec(path: Seq<char>, pattern: Seq<char>) -> bool {
    exists|i: int| 0 <= i <= path.len() && #[trigger] glob_from(pattern, 0, path, i)
}

/// A row of `len` answers, all `true`.
fn all_true(len: usize) -> (r: Vec<bool>)
    ensures
        r@.len() == len,
        forall|j: int| 0 <= j < len ==> r@[j],
{
    let mut r: Vec<bool> = Vec::new();
    while r.len() < len
        invariant
            r@.len() <= len,
            forall|j: int| 0 <= j < r@.len() ==> r@[j],
        decreases len - r@.len(),
    {
        r.push(true);
    }
    r
}

/// The answers `glob_from(p, a, s, b)` for every `b` below the path's
/// length, and the one at its end, from those for `a + 1`, `a + 2` and
/// `a + 3`.
fn glob_row(
    p: &Vec<char>,
    s: &Vec<char>,
    a: usize,
    r1: &Vec<bool>,
    e1: bool,
    r2: &Vec<bool>,
    e2: bool,
    r3: &Vec<bool>,
    e3: bool,
) -> (out: (Vec<bool>, bool))
    requires
        a < p@.len(),
        r1@.len() == s@.len(),
        r2@.len() == s@.len(),
        r3@.len() == s@.len(),
        forall|j: int| 0 <= j < s@.len() ==> r1@[j] == glob_from(p@, a + 1, s@, j),
        forall|j: int| 0 <= j < s@.len() ==> r2@[j] == glob_from(p@, a + 2, s@, j),
        forall|j: int| 0 <= j < s@.len() ==> r3@[j] == glob_from(p@, a + 3, s@, j),
        e1 == glob_from(p@, a + 1, s@, s@.len() as int),
        e2 == glob_from(p@, a + 2, s@, s@.len() as int),
        e3 == glob_from(p@, a + 3, s@, s@.len() as int),
    ensures
        out.0@.len() == s@.len(),
        forall|j: int| 0 <= j < s@.len() ==> out.0@[j] == glob_from(p@, a as int, s@, j),
        out.1 == glob_from(p@, a as int, s@, s@.len() as int),
{
    let n = p.len();
    let len = s.len();
    let double = n - a > 1 && p[a] == '*' && p[a + 1] == '*';
    let slash_after = n - a > 2 && p[a + 2] == '/';
    let star = p[a] == '*';
    let end = if double {
        e2 || (slash_after && e3)
    } else if star {
        e1
    } else {
        false
    };
    let mut row = all_true(len);
    let mut k = len;
    while k > 0
        invariant
            n == p@.len(),
            len == s@.len(),
            a < n,
            k <= len,
            row@.len() == len,
            r1@.len() == len,
            r2@.len() == len,
            r3@.len() == len,
            double == double_star_at(p@, a as int),
            slash_after == (a + 2 < n && p@[a + 2] == '/'),
            star == (p@[a as int] == '*'),
            forall|j: int| 0 <= j < len ==> r1@[j] == glob_from(p@, a + 1, s@, j),
            forall|j: int| 0 <= j < len ==> r2@[j] == glob_from(p@, a + 2, s@, j),
            forall|j: int| 0 <= j < len ==> r3@[j] == glob_from(p@, a + 3, s@, j),
            e1 == glob_from(p@, a + 1, s@, len as int),
            end == glob_from(p@, a as int, s@, len as int),
            forall|j: int| k <= j < len ==> row@[j] == glob_from(p@, a as int, s@, j),
        decreases k,
    {
        let b = k - 1;
        let next = if b + 1 < len {
            row[b + 1]
        } else {
            end
        };
        let v = if double {
            r2[b] || next || (slash_after && r3[b])
        } else if star {
            r1[b] || (s[b] != '/' && next)
        } else {
            s[b] == p[a] && if b + 1 < len {
                r1[b + 1]
            } else {
                e1
            }
        };
        proof {
            assert(v == glob_from(p@, a as int, s@, b as int));
        }
        row.set(b, v);
        k = b;
    }
    (row, end)
}

/// Glob matching: `*` matches any characters except `/`, `**` any run of
/// path segments; a path matches when some part of it matches the pattern.
pub fn glob_match(path: &str, pattern: &str) -> (r: bool)
    ensures
        r == glob_spec(path@, pattern@),
{
    let s = chars_of(path);
    let p = chars_of(pattern);
    let len = s.len();
    // The answers for the pattern positions `a`, `a + 1` and `a + 2`:
    // before the path's end, and at it.
    let mut r1 = all_true(len);
    let mut r2 = all_true(len);
    let mut r3 = all_true(len);
    let mut e1 = true;
    let mut e2 = true;
    let mut e3 = true;
    let mut a = p.len();
    while a > 0
        invariant
            a <= p@.len(),
            len == s@.len(),
            r1@.len() == len,
            r2@.len() == len,
            r3@.len() == len,
            forall|j: int| 0 <= j < len ==> r1@[j] == glob_from(p@, a as int, s@, j),
            forall|j: int| 0 <= j < len ==> r2@[j] == glob_from(p@, a + 1, s@, j),
            forall|j: int| 0 <= j < len ==> r3@[j] == glob_from(p@, a + 2, s@, j),
            e1 == glob_from(p@, a as int, s@, len as int),
            e2 == glob_from(p@, a + 1, s@, len as int),
            e3 == glob_from(p@, a + 2, s@, len as int),
        decreases a,
    {
        let (row, end) = glob_row(&p, &s, a - 1, &r1, e1, &r2, e2, &r3, e3);
        r3 = r2;
        r2 = r1;
        r1 = row;
        e3 = e2;
        e2 = e1;
        e1 = end;
        a = a - 1;
    }
    let mut i: usize = 0;
    while i < len
        invariant
            s@ == path@,
            p@ == pattern@,
            len == s@.len(),
            r1@.len() == len,
            forall|j: int| 0 <= j < len ==> r1@[j] == glob_from(p@, 0, s@, j),
            forall|j: int| 0 <= j < i ==> !glob_from(p@, 0, s@, j),
            i <= len,
        decreases len - i,
    {
        if r1[i] {
            assert(glob_from(p@, 0, s@, i as int));
            return true;
        }
        i = i + 1;
    }
    if e1 {
        assert(glob_from(p@, 0, s@, len as int));
    }
    e1
}

/// Without `*`, the pattern from `a` on matches at `b` exactly when the
/// path holds the rest of the pattern there.
proof fn lemma_plain_glob_from(p: Seq<char>, a: int, s: Seq<char>, b: int)
    requires
        0 <= a <= p.len(),
        0 <= b <= s.len(),
        forall|i: int| 0 <= i < p.len() ==> p[i] != '*',
    ensures
        glob_from(p, a, s, b) == at(s, p.subrange(a, p.len() as int), b),
    decreases p.len() - a,
{
    let rest = p.subrange(a, p.len() as int);
    if a < p.len() && b < s.len() {
        lemma_plain_glob_from(p, a + 1, s, b + 1);
        let tail = p.subrange(a + 1, p.len() as int);
        if s[b] == p[a] && at(s, tail, b + 1) {
            assert(s.subrange(b, b + rest.len()) =~= seq![s[b]] + s.subrange(b + 1, b + 1 + tail.len()));
            assert(rest =~= seq![p[a]] + tail);
        }
        if at(s, rest, b) {
            assert(s.subrange(b, b + rest.len())[0] == s[b]);
            assert(rest[0] == p[a]);
            assert(s.subrange(b + 1, b + 1 + tail.len()) =~= s.subrange(b, b + rest.len()).drop_first());
            assert(tail =~= rest.drop_first());
        }
    } else if a >= p.len() {
        assert(s.subrange(b, b) =~= rest);
    }
}

/// A pattern without `*` matches exactly the paths that contain it.
pub proof fn law_plain_pattern_is_substring(path: Seq<char>, pattern: Seq<char>)
    requires
        forall|i: int| 0 <= i < pattern.len() ==> pattern[i] != '*',
    ensures
        glob_spec(path, pattern) == contains(path, pattern),
{
    assert(pattern.subrange(0, pattern.len() as int) =~= pattern);
    if glob_spec(path, pattern) {
        let i = choose|i: int| 0 <= i <= path.len() && #[trigger] glob_from(pattern, 0, path, i);
        lemma_plain_glob_from(pattern, 0, path, i);
        assert(at(path, pattern, i));
    }
    if contains(path, pattern) {
        let k = choose|k: int| at(path, pattern, k);
        lemma_plain_glob_from(pattern, 0, path, k);
        assert(glob_from(pattern, 0, path, k));
    }
}

/// The path between `b` and `k` holds no `/`.
pub open spec fn no_slash_between(s: Seq<char>, b: int, k: int) -> bool {
    forall|j: int| b <= j < k ==> s[j] != '/'
}

/// A `*` (not part of `**`) matches exactly the runs of characters without
/// `/`: the pattern from a `*` on matches at `b` when, for some `k` from `b`
/// on, the path between `b` and `k` holds no `/` and the rest of the
/// pattern matches at `k`.
pub proof fn law_single_star(p: Seq<char>, a: int, s: Seq<char>, b: int)
    requires
        0 <= a < p.len(),
        p[a] == '*',
        !double_star_at(p, a),
        0 <= b <= s.len(),
    ensures
        glob_from(p, a, s, b) <==> exists|k: int|
            b <= k <= s.len() && no_slash_between(s, b, k) && #[trigger] glob_from(p, a + 1, s, k),
    decreases s.len() - b,
{
    assert(glob_from(p, a, s, b) == (glob_from(p, a + 1, s, b) || (b < s.len() && s[b] != '/' && glob_from(
        p,
        a,
        s,
        b + 1,
    ))));
    if b < s.len() {
        law_single_star(p, a, s, b + 1);
    }
    if glob_from(p, a, s, b) {
        if glob_from(p, a + 1, s, b) {
            assert(no_slash_between(s, b, b));
        } else {
            let k = choose|k: int| b + 1 <= k <= s.len() && no_slash_between(s, b + 1, k) && #[trigger] glob_from(p, a + 1, s, k);
            assert(no_slash_between(s, b, k));
        }
    }
    if exists|k: int| b <= k <= s.len() && no_slash_between(s, b, k) && #[trigger] glob_from(p, a + 1, s, k) {
        let k = choose|k: int| b <= k <= s.len() && no_slash_between(s, b, k) && #[trigger] glob_from(p, a + 1, s, k);
        if k > b {
            assert(s[b] != '/');
            assert(no_slash_between(s, b + 1, k));
        }
    }
}

/// What the rest of the pattern after a `**` at `a` may do at `k`: match
/// there, or, when `**` is followed by `/`, pass over that `/` and match.
pub open spec fn after_double_star(p: Seq<char>, a: int, s: Seq<char>, k: int) -> bool {
    glob_from(p, a + 2, s, k) || (a + 2 < p.len() && p[a + 2] == '/' && glob_from(p, a + 3, s, k))
}

/// A `**` matches any run of characters, `/` included, and `**/` may also
/// be passed over whole: the pattern from a `**` on matches at `b` when,
/// for some `k` from `b` on, the rest after `**` matches at `k`, or the
/// rest after `**/` does.
pub proof fn law_double_star(p: Seq<char>, a: int, s: Seq<char>, b: int)
    requires
        double_star_at(p, a),
        0 <= b <= s.len(),
    ensures
        glob_from(p, a, s, b) <==> exists|k: int| b <= k <= s.len() && #[trigger] after_double_star(p, a, s, k),
    decreases s.len() - b,
{
    assert(glob_from(p, a, s, b) == (after_double_star(p, a, s, b) || (b < s.len() && glob_from(p, a, s, b + 1))));
    if b < s.len() {
        law_double_star(p, a, s, b + 1);
    }
    if glob_from(p, a, s, b) {
        if after_double_star(p, a, s, b) {
        } else {
            let k = choose|k: int| b + 1 <= k <= s.len() && #[trigger] after_double_star(p, a, s, k);
        }
    }
    if exists|k: int| b <= k <= s.len() && #[trigger] after_double_star(p, a, s, k) {
        let k = choose|k: int| b <= k <= s.len() && #[trigger] after_double_star(p, a, s, k);
        if k > b {
            assert(glob_from(p, a, s, b + 1));
        }
    }
}

/// A path passes the optional filter: always without a pattern, else when
/// it matches the pattern.
pub open spec fn passes(path: Seq<char>, pattern: Option<&str>) -> bool {
    match pattern {
        Some(pat) => glob_spec(path, pat@),
        None => true,
    }
}

/// Whether a listed path passes the optional pattern filter.
pub fn matches_pattern(relative: &str, pattern: Option<&str>) -> (r: bool)
    ensures
        r == passes(relative@, pattern),
{
    match pattern {
        Some(pat) => glob_match(relative, pat),
        None => true,
    }
}

/// The positions, in order, of the paths that pass the optional pattern
/// filter.
pub fn filter_paths(paths: &Vec<String>, pattern: Option<&str>) -> (r: Vec<usize>)
    ensures
        r@.map_values(|i: usize| i as int) == select(
            paths@.len() as int,
            |i: int| passes(paths@[i]@, pattern),
        ),
{
    let ghost p = |i: int| passes(paths@[i]@, pattern);
    let mut out: Vec<usize> = Vec::new();
    let mut i: usize = 0;
    while i < paths.len()
        invariant
            i <= paths@.len(),
            p == (|i: int| passes(paths@[i]@, pattern)),
            out@.map_values(|k: usize| k as int) == select(i as int, p),
        decreases paths@.len() - i,
    {
        proof {
            lemma_select_step(i as int, p);
        }
        if matches_pattern(paths[i].as_str(), pattern) {
            out.push(i);
            proof {
                assert(out@.map_values(|k: usize| k as int) =~= select(i as int, p).push(i as int));
            }
        }
        i = i + 1;
    }
    out
}

/// With no pattern the filter keeps every path, in order.
pub proof fn law_no_pattern_keeps_all(paths: Seq<String>)
    ensures
        select(paths.len() as int, |i: int| passes(paths[i]@, None)) == Seq::new(paths.len(), |i: int| i),
{
    lemma_all_selected(paths, paths.len() as int);
}

proof fn lemma_all_selected(paths: Seq<String>, n: int)
    requires
        0 <= n,
    ensures
        select(n, |i: int| passes(paths[i]@, None)) == Seq::new(n as nat, |i: int| i),
    decreases n,
{
    let p = |i: int| passes(paths[i]@, None);
    if n > 0 {
        lemma_all_selected(paths, n - 1);
        lemma_select_step(n - 1, p);
    }
    assert(select(n, p) =~= Seq::new(n as nat, |i: int| i));
}

/// `{cache_dir}/unpacked/{name}/{version}`: where a crate version is unpacked.
pub open spec fn cache_path_spec(cache_dir: Seq<char>, name: Seq<char>, version: Seq<char>) -> Seq<char> {
    join_spec(
        join_spec(join_spec(cache_dir, seq!['u', 'n', 'p', 'a', 'c', 'k', 'e', 'd']), name),
        version,
    )
}

/// `{name}-{version}`: the directory a crate archive unpacks into.
pub open spec fn crate_dir_name(name: Seq<char>, version: Seq<char>) -> Seq<char> {
    name + seq!['-'] + version
}

/// Builds `{name}-{version}`.
pub fn crate_dir_name_of(name: &str, version: &str) -> (r: String)
    ensures
        r@ == crate_dir_name(name@, version@),
{
    let dash = "-";
    proof {
        reveal_strlit("-");
    }
    let mut out = String::from_str(name);
    out.append(dash);
    out.append(version);
    out
}

/// The cache directory of an unpacked crate version.
pub fn cache_path(cache_dir: &str, name: &str, version: &str) -> (r: String)
    ensures
        r@ == cache_path_spec(cache_dir@, name@, version@),
{
    let unpacked = "unpacked";
    proof {
        reveal_strlit("unpacked");
        assert(unpacked@ =~= seq!['u', 'n', 'p', 'a', 'c', 'k', 'e', 'd']);
    }
    let a = path_join(cache_dir, unpacked);
    let b = path_join(a.as_str(), name);
    path_join(b.as_str(), version)
}

/// Get the path to the crate root without reading files.
pub fn crate_root_path(cache_dir: &str, name: &str, version: &str) -> (r: String)
    ensures
        r@ == join_spec(cache_path_spec(cache_dir@, name@, version@), crate_dir_name(name@, version@)),
{
    let dir = cache_path(cache_dir, name, version);
    let inner = crate_dir_name_of(name, version);
    path_join(dir.as_str(), inner.as_str())
}


/// What `Path::starts_with` answers for two paths: whether the components
/// of `base` are the first components of `path`.
pub uninterp spec fn path_starts_with(path: Seq<char>, base: Seq<char>) -> bool;

/// `Path::starts_with`, which compares whole components; its answer is
/// named `path_starts_with` of the two texts and not spelled out here.
#[verifier::external_body]
fn starts_with_path(path: &str, base: &str) -> (r: bool)
    ensures
        r == path_starts_with(path@, base@),
{
    std::path::Path::new(path).starts_with(std::path::Path::new(base))
}

/// Why a crate's files could not be listed or read.
pub enum BrowseError {
    /// The extracted crate directory is not there.
    DirMissing { dir: String },
    /// The requested file lies outside the crate directory.
    PathTraversal { relative_path: String },
}

impl BrowseError {
    /// The message shown for the error.
    pub fn message(&self) -> (r: String)
        ensures
            match self {
                BrowseError::DirMissing { dir } => r@ == seq![
                    'c', 'r', 'a', 't', 'e', ' ', 'd', 'i', 'r', 'e', 'c', 't', 'o', 'r', 'y', ' ', 'd', 'o',
                    'e', 's', ' ', 'n', 'o', 't', ' ', 'e', 'x', 'i', 's', 't', ':', ' ',
                ] + dir@,
                BrowseError::PathTraversal { relative_path } => r@ == seq![
                    'p', 'a', 't', 'h', ' ', 't', 'r', 'a', 'v', 'e', 'r', 's', 'a', 'l', ' ', 'd', 'e', 't',
                    'e', 'c', 't', 'e', 'd', ':', ' ',
                ] + relative_path@,
            },
    {
        match self {
            BrowseError::DirMissing { dir } => {
                let head = "crate directory does not exist: ";
                proof {
                    reveal_strlit("crate directory does not exist: ");
                }
                let mut out = String::from_str(head);
                out.append(dir.as_str());
                out
            },
            BrowseError::PathTraversal { relative_path } => {
                let head = "path traversal detected: ";
                proof {
                    reveal_strlit("path traversal detected: ");
                }
                let mut out = String::from_str(head);
                out.append(relative_path.as_str());
                out
            },
        }
    }
}

/// Listing starts only when the crate directory exists (the caller looks).
pub fn check_crate_dir(crate_root: &str, exists: bool) -> (r: Result<(), BrowseError>)
    ensures
        exists ==> r is Ok,
        !exists ==> (r matches Err(BrowseError::DirMissing { dir }) && dir@ == crate_root@),
{
    if exists {
        Ok(())
    } else {
        Err(BrowseError::DirMissing { dir: String::from_str(crate_root) })
    }
}

/// The file to read: `{crate_root}/{relative_path}`.
pub fn file_path(crate_root: &str, relative_path: &str) -> (r: String)
    ensures
        r@ == join_spec(crate_root@, relative_path@),
{
    path_join(crate_root, relative_path)
}

/// A file may be read only when its canonical path lies inside the
/// canonical crate root (the caller canonicalizes both).
pub fn check_within_root(canonical_root: &str, canonical_file: &str, relative_path: &str) -> (r: Result<
    (),
    BrowseError,
>)
    ensures
        path_starts_with(canonical_file@, canonical_root@) ==> r is Ok,
        !path_starts_with(canonical_file@, canonical_root@) ==> (r matches Err(
            BrowseError::PathTraversal { relative_path: p },
        ) && p@ == relative_path@),
{
    if starts_with_path(canonical_file, canonical_root) {
        Ok(())
    } else {
        Err(BrowseError::PathTraversal { relative_path: String::from_str(relative_path) })
    }
}

} // verus!
