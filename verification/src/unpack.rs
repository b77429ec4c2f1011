use vstd::prelude::*;

use crate::browse::{cache_path, cache_path_spec, crate_dir_name, crate_dir_name_of};
use crate::index::{last_unyanked, read_latest_version, IndexEntry, IndexError};
use crate::prefix::{crate_file_name, crate_file_name_of, crate_file_path, crate_file_path_spec};
use crate::text::{join_spec, path_join};

verus! {

/// Where an unpacked crate is, and whether it was there already.
pub struct UnpackResult {
    pub path: String,
    pub was_cached: bool,
}

/// The paths that unpacking one crate version involves.
pub struct UnpackPlan {
    /// The cache directory the archive is extracted into.
    pub dest: String,
    /// The directory the archive is expected to create: `{dest}/{name}-{version}`.
    pub inner_dir: String,
    /// The file whose presence marks a finished extraction: `{inner_dir}/Cargo.toml`.
    pub marker: String,
    /// The archive in the mirror.
    pub crate_file: String,
    /// The archive's file name, `{name}-{version}.crate`.
    pub file_name: String,
}

/// Why a crate could not be unpacked or found.
pub enum UnpackError {
    /// The mirror has no archive for the version.
    CrateFileMissing { file_name: String, crate_file: String },
    /// The archive was extracted but holds no directory.
    InnerDirMissing { inner_dir: String },
    /// Cargo's registry holds no extracted sources for the version.
    SourceMissing { dir: String },
}

/// What to do next when unpacking.
pub enum UnpackStep {
    /// The extraction is cached: done.
    Cached(UnpackResult),
    /// Unpacking cannot go on.
    Fail(UnpackError),
    /// Create `dest` and extract the archive into it.
    Extract,
}

/// `Cargo.toml`
pub open spec fn cargo_toml_name() -> Seq<char> {
    seq!['C', 'a', 'r', 'g', 'o', '.', 't', 'o', 'm', 'l']
}

/// `unpacked`
pub open spec fn unpacked_seg() -> Seq<char> {
    seq!['u', 'n', 'p', 'a', 'c', 'k', 'e', 'd']
}

impl UnpackPlan {
    /// The plan for `name` at `version`.
    pub open spec fn spec_for(self, crates_root: Seq<char>, cache_dir: Seq<char>, name: Seq<char>, version: Seq<char>) -> bool {
        let dest = cache_path_spec(cache_dir, name, version);
        let inner = join_spec(dest, crate_dir_name(name, version));
        &&& self.dest@ == dest
        &&& self.inner_dir@ == inner
        &&& self.marker@ == join_spec(inner, cargo_toml_name())
        &&& self.crate_file@ == crate_file_path_spec(crates_root, name, version)
        &&& self.file_name@ == crate_file_name(name, version)
    }
}

/// For a cache directory that does not end in `/` and a name and version
/// without `/`, a crate version unpacks into
/// `{cache}/unpacked/{name}/{version}`, which then holds
/// `{name}-{version}`, finished when that holds `Cargo.toml`.
pub proof fn law_unpack_layout(plan: UnpackPlan, crates_root: Seq<char>, cache_dir: Seq<char>, name: Seq<char>, version: Seq<char>)
    requires
        plan.spec_for(crates_root, cache_dir, name, version),
        cache_dir.len() > 0,
        cache_dir.last() != '/',
        name.len() > 0,
        crate::prefix::no_slash(name),
        version.len() > 0,
        crate::prefix::no_slash(version),
    ensures
        plan.dest@ == cache_dir + seq!['/', 'u', 'n', 'p', 'a', 'c', 'k', 'e', 'd', '/'] + name + seq!['/'] + version,
        plan.inner_dir@ == plan.dest@ + seq!['/'] + name + seq!['-'] + version,
        plan.marker@ == plan.inner_dir@ + seq!['/', 'C', 'a', 'r', 'g', 'o', '.', 't', 'o', 'm', 'l'],
        plan.file_name@ == name + seq!['-'] + version + seq!['.', 'c', 'r', 'a', 't', 'e'],
{
    let u = seq!['u', 'n', 'p', 'a', 'c', 'k', 'e', 'd'];
    let a = cache_dir + seq!['/'] + u;
    assert(join_spec(cache_dir, u) == a);
    let b = a + seq!['/'] + name;
    assert(name[0] != '/');
    assert(join_spec(a, name) == b);
    assert(b.last() == name[name.len() - 1]);
    let c = b + seq!['/'] + version;
    assert(version[0] != '/');
    assert(join_spec(b, version) == c);
    assert(c =~= cache_dir + seq!['/', 'u', 'n', 'p', 'a', 'c', 'k', 'e', 'd', '/'] + name + seq!['/'] + version);
    assert(c.last() == version[version.len() - 1]);
    let dn = crate_dir_name(name, version);
    assert(dn[0] == name[0]);
    let inner = c + seq!['/'] + dn;
    assert(join_spec(c, dn) == inner);
    assert(inner =~= c + seq!['/'] + name + seq!['-'] + version);
    assert(inner.last() == version[version.len() - 1]);
    assert(join_spec(inner, cargo_toml_name()) =~= inner + seq!['/', 'C', 'a', 'r', 'g', 'o', '.', 't', 'o', 'm', 'l']);
}

/// The paths involved in unpacking `name` at `version`.
pub fn unpack_plan(crates_root: &str, cache_dir: &str, name: &str, version: &str) -> (r: UnpackPlan)
    ensures
        r.spec_for(crates_root@, cache_dir@, name@, version@),
{
    let dest = cache_path(cache_dir, name, version);
    let dir_name = crate_dir_name_of(name, version);
    let inner_dir = path_join(dest.as_str(), dir_name.as_str());
    let cargo_toml = "Cargo.toml";
    proof {
        reveal_strlit("Cargo.toml");
        assert(cargo_toml@ =~= cargo_toml_name());
    }
    let marker = path_join(inner_dir.as_str(), cargo_toml);
    let crate_file = crate_file_path(crates_root, name, version);
    let file_name = crate_file_name_of(name, version);
    UnpackPlan { dest, inner_dir, marker, crate_file, file_name }
}

/// A copy of a string.
fn copy_string(s: &String) -> (r: String)
    ensures
        r@ == s@,
{
    String::from_str(s.as_str())
}

/// The first decision: a finished extraction is reused; a missing archive
/// is an error; otherwise extract.
pub fn unpack_decide(plan: &UnpackPlan, marker_exists: bool, crate_file_exists: bool) -> (r: UnpackStep)
    ensures
        marker_exists ==> (r matches UnpackStep::Cached(res) && res.path@ == plan.inner_dir@ && res.was_cached),
        !marker_exists && !crate_file_exists ==> (r matches UnpackStep::Fail(UnpackError::CrateFileMissing {
            file_name,
            crate_file,
        }) && file_name@ == plan.file_name@ && crate_file@ == plan.crate_file@),
        !marker_exists && crate_file_exists ==> r is Extract,
{
    if marker_exists {
        UnpackStep::Cached(UnpackResult { path: copy_string(&plan.inner_dir), was_cached: true })
    } else if !crate_file_exists {
        UnpackStep::Fail(
            UnpackError::CrateFileMissing {
                file_name: copy_string(&plan.file_name),
                crate_file: copy_string(&plan.crate_file),
            },
        )
    } else {
        UnpackStep::Extract
    }
}

/// The last decision, after extraction: the expected directory if it is
/// there, else the first directory found in `dest` (the caller lists it),
/// else an error.
pub fn unpack_finish(plan: &UnpackPlan, inner_exists: bool, first_dir: Option<String>) -> (r: Result<
    UnpackResult,
    UnpackError,
>)
    ensures
        inner_exists ==> (r matches Ok(res) && res.path@ == plan.inner_dir@ && !res.was_cached),
        !inner_exists ==> match first_dir {
            Some(d) => r matches Ok(res) && res.path@ == d@ && !res.was_cached,
            None => r matches Err(UnpackError::InnerDirMissing { inner_dir }) && inner_dir@ == plan.inner_dir@,
        },
{
    if inner_exists {
        Ok(UnpackResult { path: copy_string(&plan.inner_dir), was_cached: false })
    } else {
        match first_dir {
            Some(d) => Ok(UnpackResult { path: d, was_cached: false }),
            None => Err(UnpackError::InnerDirMissing { inner_dir: copy_string(&plan.inner_dir) }),
        }
    }
}

/// The plan for unpacking the latest version of a crate, given its index
/// entries, and that version.
pub fn unpack_latest(
    versions: Vec<IndexEntry>,
    crates_root: &str,
    cache_dir: &str,
    name: &str,
) -> (r: Result<(UnpackPlan, String), IndexError>)
    ensures
        match last_unyanked(versions@) {
            Some(i) => r matches Ok((plan, vers)) && vers == versions@[i].vers && plan.spec_for(
                crates_root@,
                cache_dir@,
                name@,
                vers@,
            ),
            None => r matches Err(IndexError::NoUnyankedVersion { name: n }) && n@ == name@,
        },
{
    match read_latest_version(versions, name) {
        Ok(latest) => {
            let plan = unpack_plan(crates_root, cache_dir, name, latest.vers.as_str());
            Ok((plan, latest.vers))
        },
        Err(e) => Err(e),
    }
}

/// Where cargo keeps the extracted sources of `name` at `version`:
/// `{src_root}/{name}-{version}`.
pub fn cargo_source_dir(src_root: &str, name: &str, version: &str) -> (r: String)
    ensures
        r@ == join_spec(src_root@, crate_dir_name(name@, version@)),
{
    let d = crate_dir_name_of(name, version);
    path_join(src_root, d.as_str())
}

/// Return the pre-extracted source path from cargo registry src directory,
/// given whether that directory exists (the caller looks).
pub fn cargo_source_path(dir: String, exists: bool) -> (r: Result<UnpackResult, UnpackError>)
    ensures
        exists ==> (r matches Ok(res) && res.path@ == dir@ && res.was_cached),
        !exists ==> (r matches Err(UnpackError::SourceMissing { dir: d }) && d@ == dir@),
{
    if exists {
        Ok(UnpackResult { path: dir, was_cached: true })
    } else {
        Err(UnpackError::SourceMissing { dir })
    }
}

/// The directory that holds every unpacked crate: `{cache_dir}/unpacked`.
pub fn unpacked_dir(cache_dir: &str) -> (r: String)
    ensures
        r@ == join_spec(cache_dir@, unpacked_seg()),
{
    let seg = "unpacked";
    proof {
        reveal_strlit("unpacked");
        assert(seg@ =~= unpacked_seg());
    }
    path_join(cache_dir, seg)
}

impl UnpackError {
    /// The message shown for the error.
    pub fn message(&self) -> (r: String)
        ensures
            match self {
                UnpackError::CrateFileMissing { file_name, crate_file } => r@ == seq![
                    'c', 'r', 'a', 't', 'e', ' ', 'f', 'i', 'l', 'e', ' ', 'n', 'o', 't', ' ', 'f', 'o', 'u',
                    'n', 'd', ':', ' ',
                ] + file_name@ + seq![' ', '(', 'e', 'x', 'p', 'e', 'c', 't', 'e', 'd', ' ', 'a', 't', ' ']
                    + crate_file@ + seq![')'],
                UnpackError::InnerDirMissing { inner_dir } => r@ == seq![
                    'e', 'x', 't', 'r', 'a', 'c', 't', 'i', 'o', 'n', ' ', 's', 'u', 'c', 'c', 'e', 'e', 'd',
                    'e', 'd', ' ', 'b', 'u', 't', ' ', 'i', 'n', 'n', 'e', 'r', ' ', 'd', 'i', 'r', 'e', 'c',
                    't', 'o', 'r', 'y', ' ', 'n', 'o', 't', ' ', 'f', 'o', 'u', 'n', 'd', ' ', 'a', 't', ' ',
                ] + inner_dir@,
                UnpackError::SourceMissing { dir } => r@ == seq![
                    's', 'o', 'u', 'r', 'c', 'e', ' ', 'n', 'o', 't', ' ', 'f', 'o', 'u', 'n', 'd', ' ', 'a',
                    't', ' ',
                ] + dir@ + seq![
                    ' ', '\u{2014}', ' ', 't', 'r', 'y', ' ', 'r', 'u', 'n', 'n', 'i', 'n', 'g', ' ', '`',
                    'c', 'a', 'r', 'g', 'o', ' ', 'f', 'e', 't', 'c', 'h', '`', ' ', 'i', 'n', ' ', 'y', 'o',
                    'u', 'r', ' ', 'p', 'r', 'o', 'j', 'e', 'c', 't',
                ],
            },
    {
        match self {
            UnpackError::CrateFileMissing { file_name, crate_file } => {
                let a = "crate file not found: ";
                let b = " (expected at ";
                let c = ")";
                proof {
                    reveal_strlit("crate file not found: ");
                    reveal_strlit(" (expected at ");
                    reveal_strlit(")");
                }
                let mut out = String::from_str(a);
                out.append(file_name.as_str());
                out.append(b);
                out.append(crate_file.as_str());
                out.append(c);
                out
            },
            UnpackError::InnerDirMissing { inner_dir } => {
                let a = "extraction succeeded but inner directory not found at ";
                proof {
                    reveal_strlit("extraction succeeded but inner directory not found at ");
                }
                let mut out = String::from_str(a);
                out.append(inner_dir.as_str());
                out
            },
            UnpackError::SourceMissing { dir } => {
                let a = "source not found at ";
                let b = " \u{2014} try running `cargo fetch` in your project";
                proof {
                    reveal_strlit("source not found at ");
                    reveal_strlit(" \u{2014} try running `cargo fetch` in your project");
                }
                let mut out = String::from_str(a);
                out.append(dir.as_str());
                out.append(b);
                out
            },
        }
    }
}

} // verus!
