use vstd::prelude::*;

use crate::order::{
    bytes_lt, lemma_bytes_injective, lemma_lt_asym, lemma_lt_irrefl, lemma_lt_total, lemma_lt_trans, lex_lt, sbytes,
};
use crate::text::{ascii_lower, bytes_eq, str_eq, to_ascii_lowercase};

verus! {

/// One dependency of a published crate version.
#[derive(Clone, Debug)]
pub struct IndexDep {
    pub name: String,
    pub req: String,
    pub features: Vec<String>,
    pub optional: bool,
    pub default_features: bool,
    pub target: Option<String>,
    pub kind: String,
    pub package: Option<String>,
}

/// The dependency kind that an index line leaves out: `normal`.
pub fn default_kind() -> (r: String)
    ensures
        r@ == seq!['n', 'o', 'r', 'm', 'a', 'l'],
{
    let s = "normal";
    proof {
        reveal_strlit("normal");
    }
    String::from_str(s)
}

/// One feature: its name and the features and dependencies it activates.
#[derive(Clone, Debug)]
pub struct FeatureEntry {
    pub name: String,
    pub activates: Vec<String>,
}

/// Feature lists are kept as a map is: keys in strictly ascending byte order.
pub open spec fn keys_sorted(s: Seq<FeatureEntry>) -> bool {
    forall|i: int, j: int|
        0 <= i < j < s.len() ==> lex_lt(#[trigger] sbytes(s[i].name), #[trigger] sbytes(s[j].name))
}

/// What a feature list maps the key `k` to.
pub open spec fn feature_lookup(s: Seq<FeatureEntry>, k: Seq<char>) -> Option<Seq<String>>
    decreases s.len(),
{
    if s.len() == 0 {
        None
    } else if s.last().name@ == k {
        Some(s.last().activates@)
    } else {
        feature_lookup(s.drop_last(), k)
    }
}

/// The merge of one key's values: those of `features`, then those of `features2`.
pub open spec fn merge_values(a: Option<Seq<String>>, b: Option<Seq<String>>) -> Option<Seq<String>> {
    match (a, b) {
        (Some(x), Some(y)) => Some(x + y),
        (Some(x), None) => Some(x),
        (None, Some(y)) => Some(y),
        (None, None) => None,
    }
}

/// One published version of a crate, as a line of the registry index gives it.
#[derive(Clone, Debug)]
pub struct IndexEntry {
    pub name: String,
    pub vers: String,
    pub deps: Vec<IndexDep>,
    pub cksum: String,
    pub features: Vec<FeatureEntry>,
    pub features2: Vec<FeatureEntry>,
    pub yanked: bool,
    pub pubtime: Option<String>,
}

proof fn lemma_lookup_some(s: Seq<FeatureEntry>, k: Seq<char>)
    ensures
        feature_lookup(s, k) is Some <==> exists|i: int| 0 <= i < s.len() && (#[trigger] s[i]).name@ == k,
    decreases s.len(),
{
    if s.len() > 0 {
        lemma_lookup_some(s.drop_last(), k);
        if feature_lookup(s, k) is Some && s.last().name@ != k {
            let i = choose|i: int| 0 <= i < s.drop_last().len() && (#[trigger] s.drop_last()[i]).name@ == k;
            assert(s[i] == s.drop_last()[i]);
        }
        if exists|i: int| 0 <= i < s.len() && (#[trigger] s[i]).name@ == k {
            let i = choose|i: int| 0 <= i < s.len() && (#[trigger] s[i]).name@ == k;
            if i < s.len() - 1 {
                assert(s.drop_last()[i] == s[i]);
            }
        }
    }
}

proof fn lemma_lookup_take(s: Seq<FeatureEntry>, i: int, k: Seq<char>)
    requires
        0 <= i < s.len(),
    ensures
        feature_lookup(s.subrange(0, i + 1), k) == if s[i].name@ == k {
            Some(s[i].activates@)
        } else {
            feature_lookup(s.subrange(0, i), k)
        },
{
    assert(s.subrange(0, i + 1).drop_last() =~= s.subrange(0, i));
}

proof fn lemma_lookup_push(s: Seq<FeatureEntry>, e: FeatureEntry, k: Seq<char>)
    ensures
        feature_lookup(s.push(e), k) == if e.name@ == k {
            Some(e.activates@)
        } else {
            feature_lookup(s, k)
        },
{
    assert(s.push(e).drop_last() =~= s);
}

/// A key not yet reached by a sorted list's prefix is not in that prefix.
proof fn lemma_lookup_absent_below(s: Seq<FeatureEntry>, i: int, x: String)
    requires
        0 <= i <= s.len(),
        forall|a: int| 0 <= a < i ==> lex_lt(#[trigger] sbytes(s[a].name), sbytes(x)),
    ensures
        feature_lookup(s.subrange(0, i), x@) is None,
{
    lemma_lookup_some(s.subrange(0, i), x@);
    if feature_lookup(s.subrange(0, i), x@) is Some {
        let a = choose|a: int| 0 <= a < i && (#[trigger] s.subrange(0, i)[a]).name@ == x@;
        assert(s.subrange(0, i)[a] == s[a]);
        lemma_lt_irrefl(sbytes(x));
        assert(lex_lt(sbytes(s[a].name), sbytes(x)));
    }
}

/// A copy of a list of strings.
pub fn clone_strings(v: &Vec<String>) -> (r: Vec<String>)
    ensures
        r@ == v@,
{
    let mut out: Vec<String> = Vec::new();
    let mut i: usize = 0;
    while i < v.len()
        invariant
            i <= v.len(),
            out@ == v@.subrange(0, i as int),
        decreases v.len() - i,
    {
        out.push(v[i].clone());
        proof {
            assert(out@ =~= v@.subrange(0, i + 1));
        }
        i = i + 1;
    }
    proof {
        assert(v@.subrange(0, v@.len() as int) =~= v@);
    }
    out
}

/// The strings of `a` followed by those of `b`.
fn concat_strings(a: &Vec<String>, b: &Vec<String>) -> (r: Vec<String>)
    ensures
        r@ == a@ + b@,
{
    let mut out = clone_strings(a);
    let mut i: usize = 0;
    while i < b.len()
        invariant
            i <= b.len(),
            out@ == a@ + b@.subrange(0, i as int),
        decreases b.len() - i,
    {
        out.push(b[i].clone());
        proof {
            assert(out@ =~= a@ + b@.subrange(0, i + 1));
        }
        i = i + 1;
    }
    proof {
        assert(b@.subrange(0, b@.len() as int) =~= b@);
    }
    out
}

impl IndexEntry {
    /// Both feature lists are in map order.
    pub open spec fn wf(&self) -> bool {
        keys_sorted(self.features@) && keys_sorted(self.features2@)
    }

    /// Merged features map (features + features2).
    pub fn all_features(&self) -> (r: Vec<FeatureEntry>)
        requires
            self.wf(),
        ensures
            keys_sorted(r@),
            forall|k: Seq<char>|
                #![trigger feature_lookup(r@, k)]
                feature_lookup(r@, k) == merge_values(
                    feature_lookup(self.features@, k),
                    feature_lookup(self.features2@, k),
                ),
    {
        let f1 = &self.features;
        let f2 = &self.features2;
        let n1 = f1.len();
        let n2 = f2.len();
        let mut out: Vec<FeatureEntry> = Vec::new();
        let mut i: usize = 0;
        let mut j: usize = 0;
        while i < n1 || j < n2
            invariant
                n1 == f1@.len(),
                n2 == f2@.len(),
                i <= n1,
                j <= n2,
                keys_sorted(f1@),
                keys_sorted(f2@),
                keys_sorted(out@),
                forall|a: int|
                    0 <= a < out@.len() ==> (i < n1 ==> lex_lt(
                        #[trigger] sbytes(out@[a].name),
                        sbytes(f1@[i as int].name),
                    )) && (j < n2 ==> lex_lt(sbytes(out@[a].name), sbytes(f2@[j as int].name))),
                forall|k: Seq<char>|
                    #![trigger feature_lookup(out@, k)]
                    feature_lookup(out@, k) == merge_values(
                        feature_lookup(f1@.subrange(0, i as int), k),
                        feature_lookup(f2@.subrange(0, j as int), k),
                    ),
            decreases n1 + n2 - i - j,
        {
            let ghost old_out = out@;
            let ghost oi = i as int;
            let ghost oj = j as int;
            // Which side comes next: 0 = features, 1 = both, 2 = features2.
            let side: u8 = if i == n1 {
                2
            } else if j == n2 {
                0
            } else {
                let a = f1[i].name.as_str().as_bytes();
                let b = f2[j].name.as_str().as_bytes();
                if bytes_lt(a, b) {
                    0
                } else if bytes_eq(a, b) {
                    1
                } else {
                    2
                }
            };
            let ghost x: String = if side == 2 { f2@[j as int].name } else { f1@[i as int].name };
            proof {
                if side == 1 {
                    lemma_bytes_injective(f1@[i as int].name@, f2@[j as int].name@);
                }
                if side == 2 && i < n1 {
                    // Neither below nor equal: above.
                    let a = sbytes(f1@[i as int].name);
                    let b = sbytes(f2@[j as int].name);
                    assert(!lex_lt(a, b));
                    assert(a != b);
                    crate::order::lemma_lt_total(a, b);
                    assert(lex_lt(b, a));
                }
                if side != 2 {
                    assert(sbytes(x) == sbytes(f1@[i as int].name));
                }
                if side == 1 {
                    assert(sbytes(x) == sbytes(f2@[j as int].name));
                }
                // `x` is above every key seen so far, on both sides.
                assert forall|a: int| 0 <= a < i implies lex_lt(#[trigger] sbytes(f1@[a].name), sbytes(x)) by {
                    if side != 2 {
                        assert(lex_lt(sbytes(f1@[a].name), sbytes(f1@[i as int].name)));
                    } else {
                        {
                            lemma_lookup_some(f1@.subrange(0, i as int), f1@[a].name@);
                            assert(f1@.subrange(0, i as int)[a] == f1@[a]);
                            assert(feature_lookup(out@, f1@[a].name@) is Some);
                            lemma_lookup_some(out@, f1@[a].name@);
                            let b = choose|b: int| 0 <= b < out@.len() && (#[trigger] out@[b]).name@ == f1@[a].name@;
                            assert(lex_lt(sbytes(out@[b].name), sbytes(f2@[j as int].name)));
                        }
                    }
                }
                assert forall|a: int| 0 <= a < j implies lex_lt(#[trigger] sbytes(f2@[a].name), sbytes(x)) by {
                    if side == 2 {
                    } else {
                        lemma_lookup_some(f2@.subrange(0, j as int), f2@[a].name@);
                        assert(f2@.subrange(0, j as int)[a] == f2@[a]);
                        assert(feature_lookup(out@, f2@[a].name@) is Some);
                        lemma_lookup_some(out@, f2@[a].name@);
                        let b = choose|b: int| 0 <= b < out@.len() && (#[trigger] out@[b]).name@ == f2@[a].name@;
                        assert(lex_lt(sbytes(out@[b].name), sbytes(f1@[i as int].name)));
                    }
                }
                lemma_lookup_absent_below(f1@, i as int, x);
                lemma_lookup_absent_below(f2@, j as int, x);
            }
            if side == 0 {
                let e = FeatureEntry { name: f1[i].name.clone(), activates: clone_strings(&f1[i].activates) };
                out.push(e);
                proof {
                    assert forall|k: Seq<char>| #![trigger feature_lookup(out@, k)]
                        feature_lookup(out@, k) == merge_values(
                            feature_lookup(f1@.subrange(0, i + 1), k),
                            feature_lookup(f2@.subrange(0, j as int), k),
                        ) by {
                        lemma_lookup_push(old_out, e, k);
                        lemma_lookup_take(f1@, i as int, k);
                    }
                }
                i = i + 1;
            } else if side == 1 {
                let e = FeatureEntry {
                    name: f1[i].name.clone(),
                    activates: concat_strings(&f1[i].activates, &f2[j].activates),
                };
                out.push(e);
                proof {
                    assert forall|k: Seq<char>| #![trigger feature_lookup(out@, k)]
                        feature_lookup(out@, k) == merge_values(
                            feature_lookup(f1@.subrange(0, i + 1), k),
                            feature_lookup(f2@.subrange(0, j + 1), k),
                        ) by {
                        lemma_lookup_push(old_out, e, k);
                        lemma_lookup_take(f1@, i as int, k);
                        lemma_lookup_take(f2@, j as int, k);
                    }
                }
                i = i + 1;
                j = j + 1;
            } else {
                let e = FeatureEntry { name: f2[j].name.clone(), activates: clone_strings(&f2[j].activates) };
                out.push(e);
                proof {
                    assert forall|k: Seq<char>| #![trigger feature_lookup(out@, k)]
                        feature_lookup(out@, k) == merge_values(
                            feature_lookup(f1@.subrange(0, i as int), k),
                            feature_lookup(f2@.subrange(0, j + 1), k),
                        ) by {
                        lemma_lookup_push(old_out, e, k);
                        lemma_lookup_take(f2@, j as int, k);
                    }
                }
                j = j + 1;
            }
            proof {
                assert forall|a: int, b: int| 0 <= a < b < out@.len() implies lex_lt(
                    #[trigger] sbytes(out@[a].name),
                    #[trigger] sbytes(out@[b].name),
                ) by {
                    if b == out@.len() - 1 {
                        assert(out@[a] == old_out[a]);
                    }
                }
                assert forall|a: int| 0 <= a < out@.len() implies (i < n1 ==> lex_lt(
                    #[trigger] sbytes(out@[a].name),
                    sbytes(f1@[i as int].name),
                )) && (j < n2 ==> lex_lt(sbytes(out@[a].name), sbytes(f2@[j as int].name))) by {
                    if a < old_out.len() {
                        assert(out@[a] == old_out[a]);
                    }
                    if i < n1 {
                        if a < old_out.len() {
                            if side == 0 || side == 1 {
                                lemma_lt_trans(sbytes(out@[a].name), sbytes(f1@[i - 1].name), sbytes(f1@[i as int].name));
                            }
                        } else {
                            if side == 0 || side == 1 {
                                assert(sbytes(out@[a].name) == sbytes(x));
                                assert(oi == i - 1);
                            }
                        }
                    }
                    if j < n2 {
                        if a < old_out.len() {
                            if side == 2 || side == 1 {
                                lemma_lt_trans(sbytes(out@[a].name), sbytes(f2@[j - 1].name), sbytes(f2@[j as int].name));
                            }
                        } else {
                            if side == 2 || side == 1 {
                                assert(sbytes(out@[a].name) == sbytes(x));
                                assert(oj == j - 1);
                            }
                        }
                    }
                }
            }
        }
        proof {
            assert(f1@.subrange(0, n1 as int) =~= f1@);
            assert(f2@.subrange(0, n2 as int) =~= f2@);
        }
        out
    }
}


/// Why a crate's latest version could not be given.
pub enum IndexError {
    /// Every version in the index is yanked (or there is none).
    NoUnyankedVersion { name: String },
}

impl IndexError {
    /// The message shown for the error.
    pub fn message(&self) -> (r: String)
        ensures
            match self {
                IndexError::NoUnyankedVersion { name } => r@ == seq![
                    'n', 'o', ' ', 'n', 'o', 'n', '-', 'y', 'a', 'n', 'k', 'e', 'd', ' ', 'v', 'e', 'r', 's',
                    'i', 'o', 'n', 's', ' ', 'f', 'o', 'u', 'n', 'd', ' ', 'f', 'o', 'r', ' ', '\'',
                ] + name@ + seq!['\''],
            },
    {
        match self {
            IndexError::NoUnyankedVersion { name } => {
                let head = "no non-yanked versions found for '";
                let tail = "'";
                proof {
                    reveal_strlit("no non-yanked versions found for '");
                    reveal_strlit("'");
                }
                let mut out = String::from_str(head);
                out.append(name.as_str());
                out.append(tail);
                out
            },
        }
    }
}

/// The position of the last version that is not yanked.
pub open spec fn last_unyanked(s: Seq<IndexEntry>) -> Option<int>
    decreases s.len(),
{
    if s.len() == 0 {
        None
    } else if !s.last().yanked {
        Some(s.len() - 1)
    } else {
        last_unyanked(s.drop_last())
    }
}

/// The latest non-yanked version among a crate's index entries (which come
/// in publication order, as the index file lists them).
pub fn read_latest_version(versions: Vec<IndexEntry>, name: &str) -> (r: Result<IndexEntry, IndexError>)
    ensures
        match last_unyanked(versions@) {
            Some(i) => r == Ok::<IndexEntry, IndexError>(versions@[i]),
            None => r matches Err(IndexError::NoUnyankedVersion { name: n }) && n@ == name@,
        },
{
    let ghost all = versions@;
    let mut i = versions.len();
    proof {
        assert(all.subrange(0, i as int) =~= all);
    }
    while i > 0
        invariant
            versions@ == all,
            i <= all.len(),
            last_unyanked(all) == last_unyanked(all.subrange(0, i as int)),
        decreases i,
    {
        proof {
            let pre = all.subrange(0, i as int);
            assert(pre.drop_last() =~= all.subrange(0, i - 1));
            assert(pre.last() == all[i - 1]);
        }
        if !versions[i - 1].yanked {
            proof {
                assert(last_unyanked(all.subrange(0, i as int)) == Some(i - 1));
            }
            return Ok(take_at(versions, i - 1));
        }
        i = i - 1;
    }
    Err(IndexError::NoUnyankedVersion { name: String::from_str(name) })
}

/// The latest version chosen is not yanked and every later one is; when
/// there is none, every version is yanked.
pub proof fn law_latest_is_last_unyanked(s: Seq<IndexEntry>)
    ensures
        last_unyanked(s) matches Some(i) ==> 0 <= i < s.len() && !s[i].yanked && forall|j: int|
            i < j < s.len() ==> (#[trigger] s[j]).yanked,
        last_unyanked(s) is None ==> forall|j: int| 0 <= j < s.len() ==> (#[trigger] s[j]).yanked,
    decreases s.len(),
{
    if s.len() > 0 {
        let t = s.drop_last();
        law_latest_is_last_unyanked(t);
        if s.last().yanked {
            assert forall|j: int| 0 <= j < t.len() implies s[j] == t[j] by {}
        }
    }
}

/// Some dependency's name, lowercased, is `dep_lower`.
pub open spec fn depends_on_spec(entry: IndexEntry, dep_lower: Seq<char>) -> bool {
    exists|i: int| 0 <= i < entry.deps@.len() && ascii_lower((#[trigger] entry.deps@[i]).name@) == dep_lower
}

/// Some feature key of either list, lowercased, is `feat_lower`.
pub open spec fn has_feature_spec(entry: IndexEntry, feat_lower: Seq<char>) -> bool {
    (exists|i: int| 0 <= i < entry.features@.len() && ascii_lower((#[trigger] entry.features@[i]).name@) == feat_lower)
        || (exists|i: int|
        0 <= i < entry.features2@.len() && ascii_lower((#[trigger] entry.features2@[i]).name@) == feat_lower)
}

/// An entry depends on a target exactly when one of its dependencies is
/// named the whole target once lowercased: a dependency on `serde_json` is
/// no dependency on `serde`.
pub proof fn law_depends_on_whole_name(entry: IndexEntry, target: Seq<char>)
    ensures
        depends_on_spec(entry, target) <==> exists|i: int|
            0 <= i < entry.deps@.len() && #[trigger] ascii_lower(entry.deps@[i].name@).len() == target.len()
                && forall|c: int| 0 <= c < target.len() ==> ascii_lower(entry.deps@[i].name@)[c] == target[c],
{
    if depends_on_spec(entry, target) {
        let i = choose|i: int| 0 <= i < entry.deps@.len() && ascii_lower((#[trigger] entry.deps@[i]).name@) == target;
        assert(ascii_lower(entry.deps@[i].name@).len() == target.len());
    }
    if exists|i: int|
        0 <= i < entry.deps@.len() && #[trigger] ascii_lower(entry.deps@[i].name@).len() == target.len() && forall|
            c: int,
        | 0 <= c < target.len() ==> ascii_lower(entry.deps@[i].name@)[c] == target[c] {
        let i = choose|i: int|
            0 <= i < entry.deps@.len() && #[trigger] ascii_lower(entry.deps@[i].name@).len() == target.len()
                && forall|c: int| 0 <= c < target.len() ==> ascii_lower(entry.deps@[i].name@)[c] == target[c];
        assert(ascii_lower(entry.deps@[i].name@) =~= target);
        assert(ascii_lower((#[trigger] entry.deps@[i]).name@) == target);
    }
}

/// A feature list has a key that is the whole target once lowercased.
pub open spec fn has_key_lower(fs: Seq<FeatureEntry>, target: Seq<char>) -> bool {
    exists|i: int|
        0 <= i < fs.len() && #[trigger] ascii_lower(fs[i].name@).len() == target.len() && forall|c: int|
            0 <= c < target.len() ==> ascii_lower(fs[i].name@)[c] == target[c]
}

/// An entry has a feature exactly when `features` or `features2` has a key
/// that is the whole target once lowercased: a crate whose only feature is
/// `no_std` has no feature `std`.
pub proof fn law_has_feature_whole_name(entry: IndexEntry, target: Seq<char>)
    ensures
        has_feature_spec(entry, target) <==> has_key_lower(entry.features@, target) || has_key_lower(
            entry.features2@,
            target,
        ),
{
    lemma_key_lower(entry.features@, target);
    lemma_key_lower(entry.features2@, target);
}

proof fn lemma_key_lower(fs: Seq<FeatureEntry>, target: Seq<char>)
    ensures
        has_key_lower(fs, target) <==> exists|i: int| 0 <= i < fs.len() && ascii_lower((#[trigger] fs[i]).name@) == target,
{
    if has_key_lower(fs, target) {
        let i = choose|i: int|
            0 <= i < fs.len() && #[trigger] ascii_lower(fs[i].name@).len() == target.len() && forall|c: int|
                0 <= c < target.len() ==> ascii_lower(fs[i].name@)[c] == target[c];
        assert(ascii_lower(fs[i].name@) =~= target);
        assert(ascii_lower((#[trigger] fs[i]).name@) == target);
    }
    if exists|i: int| 0 <= i < fs.len() && ascii_lower((#[trigger] fs[i]).name@) == target {
        let i = choose|i: int| 0 <= i < fs.len() && ascii_lower((#[trigger] fs[i]).name@) == target;
        assert(ascii_lower(fs[i].name@).len() == target.len());
    }
}

impl IndexEntry {
    /// Whether the entry depends on `dep_lower` (compared case-insensitively
    /// on the dependency's side; `dep_lower` is already lowercase).
    pub fn depends_on(&self, dep_lower: &str) -> (r: bool)
        ensures
            r == depends_on_spec(*self, dep_lower@),
            r <==> exists|i: int|
                0 <= i < self.deps@.len() && #[trigger] ascii_lower(self.deps@[i].name@).len() == dep_lower@.len()
                    && forall|c: int| 0 <= c < dep_lower@.len() ==> ascii_lower(self.deps@[i].name@)[c] == dep_lower@[c],
    {
        proof {
            law_depends_on_whole_name(*self, dep_lower@);
        }
        let mut i: usize = 0;
        while i < self.deps.len()
            invariant
                i <= self.deps@.len(),
                forall|j: int| 0 <= j < i ==> ascii_lower((#[trigger] self.deps@[j]).name@) != dep_lower@,
            decreases self.deps@.len() - i,
        {
            let l = to_ascii_lowercase(self.deps[i].name.as_str());
            if str_eq(l.as_str(), dep_lower) {
                proof {
                    law_depends_on_whole_name(*self, dep_lower@);
                }
                return true;
            }
            i = i + 1;
        }
        false
    }

    /// Whether the merged features hold a key equal to `feat_lower` once
    /// lowercased.
    pub fn has_feature(&self, feat_lower: &str) -> (r: bool)
        requires
            self.wf(),
        ensures
            r == has_feature_spec(*self, feat_lower@),
            r <==> has_key_lower(self.features@, feat_lower@) || has_key_lower(self.features2@, feat_lower@),
    {
        proof {
            law_has_feature_whole_name(*self, feat_lower@);
        }
        let all = self.all_features();
        let mut i: usize = 0;
        while i < all.len()
            invariant
                i <= all@.len(),
                forall|j: int| 0 <= j < i ==> ascii_lower((#[trigger] all@[j]).name@) != feat_lower@,
                forall|k: Seq<char>|
                    #![trigger feature_lookup(all@, k)]
                    feature_lookup(all@, k) == merge_values(
                        feature_lookup(self.features@, k),
                        feature_lookup(self.features2@, k),
                    ),
            decreases all@.len() - i,
        {
            let l = to_ascii_lowercase(all[i].name.as_str());
            if str_eq(l.as_str(), feat_lower) {
                proof {
                    let k = all@[i as int].name@;
                    lemma_lookup_some(all@, k);
                    lemma_lookup_some(self.features@, k);
                    lemma_lookup_some(self.features2@, k);
                    assert(all@[i as int].name@ == k);
                    assert(feature_lookup(all@, k) is Some);
                    assert(feature_lookup(all@, k) == merge_values(
                        feature_lookup(self.features@, k),
                        feature_lookup(self.features2@, k),
                    ));
                    if feature_lookup(self.features@, k) is Some {
                        let j = choose|j: int| 0 <= j < self.features@.len() && (#[trigger] self.features@[j]).name@ == k;
                        assert(ascii_lower(self.features@[j].name@) == feat_lower@);
                    } else {
                        let j = choose|j: int| 0 <= j < self.features2@.len() && (#[trigger] self.features2@[j]).name@ == k;
                        assert(ascii_lower(self.features2@[j].name@) == feat_lower@);
                    }
                }
                return true;
            }
            i = i + 1;
        }
        proof {
            if has_feature_spec(*self, feat_lower@) {
                let k = if exists|j: int| 0 <= j < self.features@.len() && ascii_lower(
                    (#[trigger] self.features@[j]).name@,
                ) == feat_lower@ {
                    let j = choose|j: int| 0 <= j < self.features@.len() && ascii_lower(
                        (#[trigger] self.features@[j]).name@,
                    ) == feat_lower@;
                    self.features@[j].name@
                } else {
                    let j = choose|j: int| 0 <= j < self.features2@.len() && ascii_lower(
                        (#[trigger] self.features2@[j]).name@,
                    ) == feat_lower@;
                    self.features2@[j].name@
                };
                lemma_lookup_some(all@, k);
                lemma_lookup_some(self.features@, k);
                lemma_lookup_some(self.features2@, k);
                assert(feature_lookup(all@, k) == merge_values(
                    feature_lookup(self.features@, k),
                    feature_lookup(self.features2@, k),
                ));
                assert(feature_lookup(all@, k) is Some);
                let j = choose|j: int| 0 <= j < all@.len() && (#[trigger] all@[j]).name@ == k;
                assert(ascii_lower(all@[j].name@) != feat_lower@);
            }
        }
        false
    }
}

/// The position of the first entry published as `version`, if any.
pub fn find_version(entries: &[IndexEntry], version: &str) -> (r: Option<usize>)
    ensures
        match r {
            Some(i) => i < entries@.len() && entries@[i as int].vers@ == version@ && forall|j: int|
                0 <= j < i ==> (#[trigger] entries@[j]).vers@ != version@,
            None => forall|j: int| 0 <= j < entries@.len() ==> (#[trigger] entries@[j]).vers@ != version@,
        },
{
    let mut i: usize = 0;
    while i < entries.len()
        invariant
            i <= entries@.len(),
            forall|j: int| 0 <= j < i ==> (#[trigger] entries@[j]).vers@ != version@,
        decreases entries@.len() - i,
    {
        if str_eq(entries[i].vers.as_str(), version) {
            return Some(i);
        }
        i = i + 1;
    }
    None
}

/// The entry to describe: the one published as `version` when a version is
/// named, else the latest that is not yanked. `Err` gives the kind of
/// failure: the named version is missing, or every version is yanked.
pub fn choose_entry(entries: &[IndexEntry], version: Option<&str>) -> (r: Result<usize, bool>)
    ensures
        match version {
            Some(v) => match r {
                Ok(i) => i < entries@.len() && entries@[i as int].vers@ == v@ && forall|j: int|
                    0 <= j < i ==> (#[trigger] entries@[j]).vers@ != v@,
                Err(missing) => missing && forall|j: int| 0 <= j < entries@.len() ==> (#[trigger] entries@[j]).vers@ != v@,
            },
            None => match last_unyanked(entries@) {
                Some(i) => r == Ok::<usize, bool>(i as usize),
                None => r == Err::<usize, bool>(false),
            },
        },
{
    match version {
        Some(v) => match find_version(entries, v) {
            Some(i) => Ok(i),
            None => Err(true),
        },
        None => {
            let mut i = entries.len();
            proof {
                assert(entries@.subrange(0, i as int) =~= entries@);
            }
            while i > 0
                invariant
                    version is None,
                    i <= entries@.len(),
                    last_unyanked(entries@) == last_unyanked(entries@.subrange(0, i as int)),
                decreases i,
            {
                proof {
                    let pre = entries@.subrange(0, i as int);
                    assert(pre.drop_last() =~= entries@.subrange(0, i - 1));
                    assert(pre.last() == entries@[i - 1]);
                }
                if !entries[i - 1].yanked {
                    return Ok(i - 1);
                }
                i = i - 1;
            }
            Err(false)
        },
    }
}

/// The positions, in order, of the dependencies of the given kind.
pub fn deps_of_kind(deps: &Vec<IndexDep>, kind: &str) -> (r: Vec<usize>)
    ensures
        r@.map_values(|i: usize| i as int) == crate::select::select(
            deps@.len() as int,
            |i: int| deps@[i].kind@ == kind@,
        ),
{
    let ghost p = |i: int| deps@[i].kind@ == kind@;
    let mut out: Vec<usize> = Vec::new();
    let mut i: usize = 0;
    while i < deps.len()
        invariant
            i <= deps@.len(),
            p == (|i: int| deps@[i].kind@ == kind@),
            out@.map_values(|k: usize| k as int) == crate::select::select(i as int, p),
        decreases deps@.len() - i,
    {
        proof {
            crate::select::lemma_select_step(i as int, p);
        }
        if str_eq(deps[i].kind.as_str(), kind) {
            out.push(i);
            proof {
                assert(out@.map_values(|k: usize| k as int) =~= crate::select::select(i as int, p).push(i as int));
            }
        }
        i = i + 1;
    }
    out
}

/// Ordered by dependency name (byte order), ties kept in their order.
pub open spec fn name_sorted(deps: Seq<IndexDep>, idx: Seq<usize>) -> bool {
    forall|a: int, b: int|
        0 <= a < b < idx.len() ==> !lex_lt(
            #[trigger] sbytes(deps[idx[b] as int].name),
            #[trigger] sbytes(deps[idx[a] as int].name),
        )
}

/// Where a stable insertion puts `x` into `s`, ordering by name.
pub open spec fn name_ins_pos(deps: Seq<IndexDep>, s: Seq<usize>, x: usize) -> int
    decreases s.len(),
{
    if s.len() == 0 {
        0
    } else if lex_lt(sbytes(deps[x as int].name), sbytes(deps[s.last() as int].name)) {
        name_ins_pos(deps, s.drop_last(), x)
    } else {
        s.len() as int
    }
}

/// The stable sort of dependency positions by name.
pub open spec fn sort_by_name_spec(deps: Seq<IndexDep>, s: Seq<usize>) -> Seq<usize>
    decreases s.len(),
{
    if s.len() == 0 {
        s
    } else {
        let t = sort_by_name_spec(deps, s.drop_last());
        let p = name_ins_pos(deps, t, s.last());
        t.subrange(0, p) + seq![s.last()] + t.subrange(p, t.len() as int)
    }
}

proof fn lemma_name_ins_pos_range(deps: Seq<IndexDep>, s: Seq<usize>, x: usize)
    ensures
        0 <= name_ins_pos(deps, s, x) <= s.len(),
    decreases s.len(),
{
    if s.len() > 0 {
        lemma_name_ins_pos_range(deps, s.drop_last(), x);
    }
}

proof fn lemma_sort_by_name_len(deps: Seq<IndexDep>, s: Seq<usize>)
    ensures
        sort_by_name_spec(deps, s).len() == s.len(),
    decreases s.len(),
{
    if s.len() > 0 {
        lemma_sort_by_name_len(deps, s.drop_last());
        lemma_name_ins_pos_range(deps, sort_by_name_spec(deps, s.drop_last()), s.last());
    }
}

/// Where `x` goes: after every name it is not below, before those it is
/// below.
proof fn lemma_name_ins_pos_props(deps: Seq<IndexDep>, s: Seq<usize>, x: usize)
    ensures
        forall|i: int|
            name_ins_pos(deps, s, x) <= i < s.len() ==> lex_lt(
                sbytes(deps[x as int].name),
                #[trigger] sbytes(deps[s[i] as int].name),
            ),
        name_ins_pos(deps, s, x) > 0 ==> !lex_lt(
            sbytes(deps[x as int].name),
            sbytes(deps[s[name_ins_pos(deps, s, x) - 1] as int].name),
        ),
    decreases s.len(),
{
    lemma_name_ins_pos_range(deps, s, x);
    if s.len() > 0 && lex_lt(sbytes(deps[x as int].name), sbytes(deps[s.last() as int].name)) {
        let t = s.drop_last();
        lemma_name_ins_pos_props(deps, t, x);
        lemma_name_ins_pos_range(deps, t, x);
        assert forall|i: int| name_ins_pos(deps, s, x) <= i < s.len() implies lex_lt(
            sbytes(deps[x as int].name),
            #[trigger] sbytes(deps[s[i] as int].name),
        ) by {
            if i < t.len() {
                assert(s[i] == t[i]);
            }
        }
        if name_ins_pos(deps, s, x) > 0 {
            assert(s[name_ins_pos(deps, s, x) - 1] == t[name_ins_pos(deps, t, x) - 1]);
        }
    }
}

/// Sorting by name keeps the same positions and orders them by name: no
/// dependency comes after one whose name is above its own.
pub proof fn law_sort_by_name_sorted(deps: Seq<IndexDep>, s: Seq<usize>)
    ensures
        name_sorted(deps, sort_by_name_spec(deps, s)),
        sort_by_name_spec(deps, s).to_multiset() == s.to_multiset(),
    decreases s.len(),
{
    broadcast use vstd::multiset::group_multiset_axioms;

    if s.len() > 0 {
        let t = sort_by_name_spec(deps, s.drop_last());
        let x = s.last();
        law_sort_by_name_sorted(deps, s.drop_last());
        lemma_name_ins_pos_range(deps, t, x);
        lemma_name_ins_pos_props(deps, t, x);
        let p = name_ins_pos(deps, t, x);
        let u = t.subrange(0, p) + seq![x] + t.subrange(p, t.len() as int);
        assert(u == sort_by_name_spec(deps, s));
        let nx = sbytes(deps[x as int].name);
        // `x` is not below any name before it.
        assert forall|i: int| 0 <= i < p implies !lex_lt(nx, #[trigger] sbytes(deps[t[i] as int].name)) by {
            let ni = sbytes(deps[t[i] as int].name);
            let nl = sbytes(deps[t[p - 1] as int].name);
            if i < p - 1 && lex_lt(nx, ni) {
                assert(!lex_lt(nl, ni));
                if ni != nl {
                    lemma_lt_total(ni, nl);
                    lemma_lt_trans(nx, ni, nl);
                }
            }
        }
        assert forall|a: int, b: int| 0 <= a < b < u.len() implies !lex_lt(
            #[trigger] sbytes(deps[u[b] as int].name),
            #[trigger] sbytes(deps[u[a] as int].name),
        ) by {
            if b < p {
                assert(u[a] == t[a] && u[b] == t[b]);
            } else if b == p {
                assert(u[b] == x && u[a] == t[a]);
            } else if a == p {
                assert(u[a] == x && u[b] == t[b - 1]);
                lemma_lt_asym(nx, sbytes(deps[t[b - 1] as int].name));
            } else if a < p {
                assert(u[a] == t[a] && u[b] == t[b - 1]);
            } else {
                assert(u[a] == t[a - 1] && u[b] == t[b - 1]);
            }
        }
        let l = t.subrange(0, p);
        let r = t.subrange(p, t.len() as int);
        assert(t =~= l + r);
        vstd::seq_lib::lemma_multiset_commutative(l, r);
        vstd::seq_lib::lemma_multiset_commutative(l + seq![x], r);
        vstd::seq_lib::lemma_multiset_commutative(l, seq![x]);
        assert(seq![x].to_multiset() =~= vstd::multiset::Multiset::singleton(x)) by {
            assert(seq![x] =~= Seq::<usize>::empty().push(x));
            Seq::<usize>::empty().to_multiset_ensures();
        }
        assert(s =~= s.drop_last().push(x));
        s.drop_last().to_multiset_ensures();
        assert(u.to_multiset() =~= s.to_multiset());
    }
}

/// Dependency positions sorted stably by dependency name, as
/// `sort_by_key(|d| &d.name)` orders them.
pub fn sort_by_name(deps: &Vec<IndexDep>, idx: Vec<usize>) -> (r: Vec<usize>)
    requires
        forall|k: int| 0 <= k < idx@.len() ==> (#[trigger] idx@[k]) < deps@.len(),
    ensures
        r@ == sort_by_name_spec(deps@, idx@),
{
    let ghost all = idx@;
    let n = idx.len();
    let mut out: Vec<usize> = Vec::new();
    let mut k: usize = 0;
    while k < n
        invariant
            n == all.len(),
            idx@ == all,
            k <= n,
            forall|m: int| 0 <= m < all.len() ==> (#[trigger] all[m]) < deps@.len(),
            out@ == sort_by_name_spec(deps@, all.subrange(0, k as int)),
            forall|m: int| 0 <= m < out@.len() ==> (#[trigger] out@[m]) < deps@.len(),
        decreases n - k,
    {
        let x = idx[k];
        proof {
            lemma_sort_by_name_len(deps@, all.subrange(0, k as int));
        }
        let mut j = out.len();
        proof {
            assert(out@.subrange(0, j as int) =~= out@);
        }
        while j > 0 && bytes_lt(deps[x].name.as_str().as_bytes(), deps[out[j - 1]].name.as_str().as_bytes())
            invariant
                j <= out@.len(),
                x < deps@.len(),
                forall|m: int| 0 <= m < out@.len() ==> (#[trigger] out@[m]) < deps@.len(),
                name_ins_pos(deps@, out@, x) == name_ins_pos(deps@, out@.subrange(0, j as int), x),
            decreases j,
        {
            proof {
                assert(out@.subrange(0, j as int).drop_last() =~= out@.subrange(0, j - 1));
                assert(out@.subrange(0, j as int).last() == out@[j - 1]);
            }
            j = j - 1;
        }
        proof {
            if j > 0 {
                assert(out@.subrange(0, j as int).last() == out@[j - 1]);
            }
            assert(name_ins_pos(deps@, out@, x) == j);
            let pre = all.subrange(0, k + 1);
            assert(pre.drop_last() =~= all.subrange(0, k as int));
            assert(pre.last() == x);
        }
        let ghost before = out@;
        out.insert(j, x);
        proof {
            assert(out@ =~= before.subrange(0, j as int) + seq![x] + before.subrange(j as int, before.len() as int));
        }
        k = k + 1;
    }
    proof {
        assert(all.subrange(0, n as int) =~= all);
    }
    out
}

/// The first of the last ten versions: what a summary lists as recent.
pub fn recent_start(len: usize) -> (r: usize)
    ensures
        r == if len > 10 { len - 10 } else { 0 },
{
    if len > 10 {
        len - 10
    } else {
        0
    }
}

/// Whether a feature list is in map order (strictly ascending keys).
pub fn features_sorted(s: &Vec<FeatureEntry>) -> (r: bool)
    ensures
        r == keys_sorted(s@),
{
    if s.len() == 0 {
        return true;
    }
    let mut i: usize = 1;
    while i < s.len()
        invariant
            1 <= i <= s@.len(),
            keys_sorted(s@.subrange(0, i as int)),
        decreases s@.len() - i,
    {
        if !bytes_lt(s[i - 1].name.as_str().as_bytes(), s[i].name.as_str().as_bytes()) {
            proof {
                assert(!lex_lt(sbytes(s@[i - 1].name), sbytes(s@[i as int].name)));
            }
            return false;
        }
        proof {
            let t = s@.subrange(0, i + 1);
            assert forall|a: int, b: int| 0 <= a < b < t.len() implies lex_lt(
                #[trigger] sbytes(t[a].name),
                #[trigger] sbytes(t[b].name),
            ) by {
                assert(t[a] == s@[a]);
                assert(t[b] == s@[b]);
                if b == i {
                    if a < i - 1 {
                        assert(s@.subrange(0, i as int)[a] == s@[a]);
                        assert(s@.subrange(0, i as int)[i - 1] == s@[i - 1]);
                        lemma_lt_trans(sbytes(s@[a].name), sbytes(s@[i - 1].name), sbytes(s@[b].name));
                    }
                } else {
                    assert(s@.subrange(0, i as int)[a] == s@[a]);
                    assert(s@.subrange(0, i as int)[b] == s@[b]);
                }
            }
        }
        i = i + 1;
    }
    proof {
        assert(s@.subrange(0, s@.len() as int) =~= s@);
    }
    true
}

impl IndexEntry {
    /// Whether both feature lists are in map order.
    pub fn check_wf(&self) -> (r: bool)
        ensures
            r == self.wf(),
    {
        features_sorted(&self.features) && features_sorted(&self.features2)
    }
}


/// The element at `i`, taken out of the vector.
fn take_at(v: Vec<IndexEntry>, i: usize) -> (r: IndexEntry)
    requires
        i < v@.len(),
    ensures
        r == v@[i as int],
{
    let mut w = v;
    w.remove(i)
}

} // verus!
