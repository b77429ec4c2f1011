use vstd::prelude::*;

use crate::order::{dedup_sorted, has_text, sort_strings, sorted_lt, lemma_same_multiset_same_texts};
use crate::text::{join_spec, path_join, str_starts_with};

verus! {

/// One `[[package]]` of a `Cargo.lock`.
#[derive(Clone, Debug)]
pub struct LockPackage {
    pub name: String,
    pub version: String,
    pub source: Option<String>,
}

/// The source prefix of packages that come from a registry.
pub open spec fn registry_marker() -> Seq<char> {
    seq!['r', 'e', 'g', 'i', 's', 't', 'r', 'y', '+']
}

/// A package comes from a registry when its source begins with `registry+`.
pub open spec fn is_registry_package(p: LockPackage) -> bool {
    match p.source {
        Some(s) => registry_marker().len() <= s@.len() && s@.subrange(0, registry_marker().len() as int)
            == registry_marker(),
        None => false,
    }
}

/// Whether a lock package comes from a registry.
pub fn is_registry(p: &LockPackage) -> (r: bool)
    ensures
        r == is_registry_package(*p),
{
    match &p.source {
        Some(s) => {
            let marker = "registry+";
            proof {
                reveal_strlit("registry+");
                assert(marker@ =~= registry_marker());
            }
            str_starts_with(s.as_str(), marker)
        },
        None => false,
    }
}

/// The packages of a parsed `Cargo.lock` that come from a registry, in
/// their order (reading and parsing the file is the caller's part).
pub fn registry_packages(packages: Vec<LockPackage>) -> (r: Vec<LockPackage>)
    ensures
        r@ == packages@.filter(|p: LockPackage| is_registry_package(p)),
{
    let mut out: Vec<LockPackage> = Vec::new();
    let mut rest = packages;
    let ghost all = rest@;
    let n = rest.len();
    let mut i: usize = 0;
    while i < n
        invariant
            n == all.len(),
            i <= n,
            rest@ == all.subrange(i as int, n as int),
            out@ == all.subrange(0, i as int).filter(|p: LockPackage| is_registry_package(p)),
        decreases n - i,
    {
        let p = rest.remove(0);
        proof {
            assert(p == all[i as int]);
            assert(all.subrange(0, i + 1).drop_last() =~= all.subrange(0, i as int));
            assert(rest@ =~= all.subrange(i + 1, n as int));
            reveal_with_fuel(Seq::filter, 1);
        }
        if is_registry(&p) {
            out.push(p);
        }
        i = i + 1;
    }
    proof {
        assert(all.subrange(0, n as int) =~= all);
    }
    out
}

/// Extract sorted unique crate names from lock packages.
pub fn workspace_crate_names(packages: &[LockPackage]) -> (r: Vec<String>)
    ensures
        sorted_lt(r@),
        forall|s: Seq<char>|
            has_text(r@, s) <==> exists|i: int| 0 <= i < packages@.len() && (#[trigger] packages@[i]).name@ == s,
{
    let mut names: Vec<String> = Vec::new();
    let mut i: usize = 0;
    while i < packages.len()
        invariant
            i <= packages@.len(),
            names@.len() == i,
            forall|k: int| 0 <= k < i ==> (#[trigger] names@[k])@ == packages@[k].name@,
        decreases packages.len() - i,
    {
        names.push(packages[i].name.clone());
        i = i + 1;
    }
    let ghost unsorted = names@;
    sort_strings(&mut names);
    let r = dedup_sorted(&names);
    proof {
        assert forall|s: Seq<char>|
            has_text(r@, s) <==> exists|i: int| 0 <= i < packages@.len() && (#[trigger] packages@[i]).name@ == s by {
            lemma_same_multiset_same_texts(names@, unsorted, s);
            if has_text(unsorted, s) {
                let k = choose|k: int| 0 <= k < unsorted.len() && (#[trigger] unsorted[k])@ == s;
                assert(packages@[k].name@ == s);
            }
            if exists|i: int| 0 <= i < packages@.len() && (#[trigger] packages@[i]).name@ == s {
                let k = choose|i: int| 0 <= i < packages@.len() && (#[trigger] packages@[i]).name@ == s;
                assert(unsorted[k]@ == s);
            }
        }
    }
    r
}


/// What `Path::parent` gives for a path: the path without its last
/// component, or `None` for a root or an empty path.
pub uninterp spec fn path_parent(p: Seq<char>) -> Option<Seq<char>>;

/// `Path::parent`; its answer is named `path_parent` of the text. The
/// parent of a `str` path is a prefix of it, so its text is kept whole.
#[verifier::external_body]
fn parent_of(p: &str) -> (r: Option<String>)
    ensures
        match r {
            Some(s) => path_parent(p@) == Some(s@),
            None => path_parent(p@) is None,
        },
{
    std::path::Path::new(p).parent().map(|q| q.to_string_lossy().into_owned())
}

/// `Cargo.lock`
pub open spec fn lock_file_name() -> Seq<char> {
    seq!['C', 'a', 'r', 'g', 'o', '.', 'l', 'o', 'c', 'k']
}

/// The lock file looked for in `dir`: `{dir}/Cargo.lock`.
pub open spec fn lock_candidate(dir: Seq<char>) -> Seq<char> {
    join_spec(dir, lock_file_name())
}

/// The directory `j` levels above `dir` along `Path::parent`, if there is
/// one.
pub open spec fn ancestor(dir: Seq<char>, j: int) -> Option<Seq<char>>
    decreases j,
{
    if j <= 0 {
        Some(dir)
    } else {
        match ancestor(dir, j - 1) {
            Some(d) => path_parent(d),
            None => None,
        }
    }
}

/// The lock file that at most `k` steps of the walk find from `dir`, when
/// `has_lock` says which candidates exist: the walk takes the candidate
/// when it exists, and otherwise goes on from the parent directory.
pub open spec fn lock_walk(dir: Seq<char>, has_lock: spec_fn(Seq<char>) -> bool, k: int) -> Option<Seq<char>>
    decreases k,
{
    if k <= 0 {
        None
    } else if has_lock(lock_candidate(dir)) {
        Some(lock_candidate(dir))
    } else {
        match path_parent(dir) {
            Some(p) => lock_walk(p, has_lock, k - 1),
            None => None,
        }
    }
}

/// The directory `j` levels above `dir` exists and has a lock file.
pub open spec fn lock_above(dir: Seq<char>, has_lock: spec_fn(Seq<char>) -> bool, j: int) -> bool {
    match ancestor(dir, j) {
        Some(d) => has_lock(lock_candidate(d)),
        None => false,
    }
}

/// `p` is the lock file of the directory `j` levels above `dir`.
pub open spec fn lock_of_above(dir: Seq<char>, j: int, p: Seq<char>) -> bool {
    match ancestor(dir, j) {
        Some(d) => p == lock_candidate(d),
        None => false,
    }
}

/// The directory `j` levels above `dir` exists and has no lock file.
pub open spec fn passed_above(dir: Seq<char>, has_lock: spec_fn(Seq<char>) -> bool, j: int) -> bool {
    match ancestor(dir, j) {
        Some(d) => !has_lock(lock_candidate(d)),
        None => false,
    }
}

proof fn lemma_ancestor_shift(dir: Seq<char>, j: int)
    requires
        0 <= j,
    ensures
        ancestor(dir, j + 1) == match path_parent(dir) {
            Some(p) => ancestor(p, j),
            None => None,
        },
    decreases j,
{
    assert(ancestor(dir, 0) == Some(dir));
    if j > 0 {
        lemma_ancestor_shift(dir, j - 1);
        match path_parent(dir) {
            Some(p) => {
                assert(ancestor(dir, j) == ancestor(p, j - 1));
                assert(ancestor(dir, j + 1) == ancestor(p, j));
            },
            None => {
                assert(ancestor(dir, j) is None);
            },
        }
    }
}

/// The walk finds the lock file of the nearest directory that has one:
/// what it finds within `k` steps is the lock file of the first of `dir`
/// and its ancestors (up to `k - 1` levels up) that has one, every
/// directory below that one having none; and it finds nothing when none of
/// them has one.
pub proof fn law_walk_finds_nearest(dir: Seq<char>, has_lock: spec_fn(Seq<char>) -> bool, k: int)
    requires
        0 <= k,
    ensures
        lock_walk(dir, has_lock, k) matches Some(p) ==> exists|j: int|
            #![trigger lock_of_above(dir, j, p)]
            0 <= j < k && lock_above(dir, has_lock, j) && lock_of_above(dir, j, p) && forall|i: int|
                0 <= i < j ==> #[trigger] passed_above(dir, has_lock, i),
        lock_walk(dir, has_lock, k) is None ==> forall|j: int|
            0 <= j < k ==> !#[trigger] lock_above(dir, has_lock, j),
    decreases k,
{
    if k > 0 {
        if !has_lock(lock_candidate(dir)) {
            assert(passed_above(dir, has_lock, 0));
            match path_parent(dir) {
                Some(p) => {
                    law_walk_finds_nearest(p, has_lock, k - 1);
                    assert forall|j: int| 0 < j implies #[trigger] ancestor(dir, j) == ancestor(p, j - 1) by {
                        lemma_ancestor_shift(dir, j - 1);
                    }
                    if lock_walk(dir, has_lock, k) is Some {
                        let q = lock_walk(dir, has_lock, k)->0;
                        let j = choose|j: int|
                            #![trigger lock_of_above(p, j, q)]
                            0 <= j < k - 1 && lock_above(p, has_lock, j) && lock_of_above(p, j, q) && forall|i: int|
                                0 <= i < j ==> #[trigger] passed_above(p, has_lock, i);
                        assert(ancestor(dir, j + 1) == ancestor(p, j));
                        assert(lock_above(dir, has_lock, j + 1));
                        assert(lock_of_above(dir, j + 1, q));
                        assert forall|i: int| 0 <= i < j + 1 implies #[trigger] passed_above(dir, has_lock, i) by {
                            if i > 0 {
                                assert(ancestor(dir, i) == ancestor(p, i - 1));
                                assert(passed_above(p, has_lock, i - 1));
                            }
                        }
                    } else {
                        assert forall|j: int| 0 <= j < k implies !#[trigger] lock_above(dir, has_lock, j) by {
                            if j > 0 {
                                assert(ancestor(dir, j) == ancestor(p, j - 1));
                                assert(!lock_above(p, has_lock, j - 1));
                            }
                        }
                    }
                },
                None => {
                    assert forall|j: int| 0 <= j < k implies !#[trigger] lock_above(dir, has_lock, j) by {
                        if j > 0 {
                            lemma_ancestor_shift(dir, j - 1);
                        }
                    }
                },
            }
        } else {
            assert(ancestor(dir, 0) == Some(dir));
            assert(lock_above(dir, has_lock, 0));
            assert(lock_of_above(dir, 0, lock_candidate(dir)));
            assert(lock_walk(dir, has_lock, k) == Some(lock_candidate(dir)));
        }
    }
}

/// The walk up from a start directory looking for a `Cargo.lock`: the
/// caller checks whether each candidate exists.
pub struct LockSearch {
    pub dir: String,
}

/// What the walk does next.
pub enum LockStep {
    /// The lock file is this path.
    Found(String),
    /// Check the candidate of the parent directory.
    Up,
    /// There is no parent directory left: no lock file.
    NotFound,
}

/// Walk up from `start_dir` looking for a Cargo.lock file: the first
/// candidate to check.
pub fn find_cargo_lock(start_dir: &str) -> (r: LockSearch)
    ensures
        r.dir@ == start_dir@,
{
    LockSearch { dir: String::from_str(start_dir) }
}

impl LockSearch {
    /// The path to check: `{dir}/Cargo.lock`.
    pub fn candidate(&self) -> (r: String)
        ensures
            r@ == join_spec(self.dir@, lock_file_name()),
    {
        let name = "Cargo.lock";
        proof {
            reveal_strlit("Cargo.lock");
            assert(name@ =~= lock_file_name());
        }
        path_join(self.dir.as_str(), name)
    }

    /// One step: found when the candidate exists, else on to the parent
    /// directory, else not found.
    pub fn step(&mut self, candidate_exists: bool) -> (r: LockStep)
        ensures
            candidate_exists ==> (r matches LockStep::Found(p) && p@ == join_spec(old(self).dir@, lock_file_name())
                && final(self).dir@ == old(self).dir@),
            !candidate_exists ==> match path_parent(old(self).dir@) {
                Some(parent) => r is Up && final(self).dir@ == parent,
                None => r is NotFound && final(self).dir@ == old(self).dir@,
            },
            forall|has_lock: spec_fn(Seq<char>) -> bool, k: int|
                #![trigger lock_walk(old(self).dir@, has_lock, k)]
                1 <= k && has_lock(lock_candidate(old(self).dir@)) == candidate_exists ==> lock_walk(
                    old(self).dir@,
                    has_lock,
                    k,
                ) == match r {
                    LockStep::Found(p) => Some(p@),
                    LockStep::NotFound => None,
                    LockStep::Up => lock_walk(final(self).dir@, has_lock, k - 1),
                },
    {
        if candidate_exists {
            return LockStep::Found(self.candidate());
        }
        match parent_of(self.dir.as_str()) {
            Some(p) => {
                self.dir = p;
                LockStep::Up
            },
            None => LockStep::NotFound,
        }
    }
}

} // verus!
