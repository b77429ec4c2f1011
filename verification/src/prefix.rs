use vstd::prelude::*;

use crate::text::{ascii_lower, join_spec, lower_char, path_join, to_ascii_lowercase};

verus! {

/// The panamax index prefix of a crate name, by the number of characters of
/// its ASCII lowercase form: none for the empty name, `1` for one character,
/// `2` for two, `3/{first}` for three, and `{first two}/{next two}` beyond.
pub open spec fn prefix_spec(name: Seq<char>) -> Seq<char> {
    let l = ascii_lower(name);
    if l.len() == 0 {
        seq![]
    } else if l.len() == 1 {
        seq!['1']
    } else if l.len() == 2 {
        seq!['2']
    } else if l.len() == 3 {
        seq!['3', '/'] + l.take(1)
    } else {
        l.take(2) + seq!['/'] + l.subrange(2, 4)
    }
}

/// Compute the panamax index prefix for a crate name.
///
/// - 1 char  → `1`
/// - 2 chars → `2`
/// - 3 chars → `3/{first_char}`
/// - 4+ chars → `{first_two}/{next_two}`
pub fn prefix(name: &str) -> (r: String)
    ensures
        r@ == prefix_spec(name@),
        ascii_lower(name@).len() >= 4 ==> r@ == seq![
            ascii_lower(name@)[0],
            ascii_lower(name@)[1],
            '/',
            ascii_lower(name@)[2],
            ascii_lower(name@)[3],
        ],
        ascii_lower(name@).len() == 3 ==> r@ == seq!['3', '/', ascii_lower(name@)[0]],
{
    proof {
        law_prefix_shape(name@);
    }
    let lower = to_ascii_lowercase(name);
    let l = lower.as_str();
    let n = l.unicode_len();
    if n == 0 {
        String::new()
    } else if n == 1 {
        let one = "1";
        proof { reveal_strlit("1"); }
        String::from_str(one)
    } else if n == 2 {
        let two = "2";
        proof { reveal_strlit("2"); }
        String::from_str(two)
    } else if n == 3 {
        let three = "3/";
        proof { reveal_strlit("3/"); }
        let mut out = String::from_str(three);
        out.append(l.substring_char(0, 1));
        out
    } else {
        let slash = "/";
        proof { reveal_strlit("/"); }
        let mut out = String::from_str(l.substring_char(0, 2));
        out.append(slash);
        out.append(l.substring_char(2, 4));
        out
    }
}


/// Lowercasing twice is lowercasing once.
pub proof fn lemma_ascii_lower_idempotent(s: Seq<char>)
    ensures
        ascii_lower(ascii_lower(s)) == ascii_lower(s),
{
    assert(ascii_lower(ascii_lower(s)) =~= ascii_lower(s)) by {
        assert forall|i: int| 0 <= i < s.len() implies lower_char(lower_char(s[i])) == lower_char(s[i]) by {
            let c = s[i];
            if 'A' <= c && c <= 'Z' {
                assert(((c as u32) + 32) as char == lower_char(c));
            }
        }
    }
}

/// The file name of a packaged crate: `{name}-{version}.crate`.
pub open spec fn crate_file_name(name: Seq<char>, version: Seq<char>) -> Seq<char> {
    name + seq!['-'] + version + seq!['.', 'c', 'r', 'a', 't', 'e']
}

/// `{root}/{prefix}/{lowercased name}`.
pub open spec fn index_path_spec(index_root: Seq<char>, name: Seq<char>) -> Seq<char> {
    join_spec(join_spec(index_root, prefix_spec(name)), ascii_lower(name))
}

/// `{root}/{prefix}/{lower}/{version}/{lower}-{version}.crate`.
pub open spec fn crate_file_path_spec(crates_root: Seq<char>, name: Seq<char>, version: Seq<char>) -> Seq<char> {
    let lower = ascii_lower(name);
    join_spec(
        join_spec(join_spec(join_spec(crates_root, prefix_spec(name)), lower), version),
        crate_file_name(lower, version),
    )
}

/// Builds `{name}-{version}.crate`.
pub fn crate_file_name_of(name: &str, version: &str) -> (r: String)
    ensures
        r@ == crate_file_name(name@, version@),
{
    let dash = "-";
    let ext = ".crate";
    proof {
        reveal_strlit("-");
        reveal_strlit(".crate");
    }
    let mut out = String::from_str(name);
    out.append(dash);
    out.append(version);
    out.append(ext);
    out
}

/// Resolve the path to a crate's index file.
pub fn index_path(index_root: &str, name: &str) -> (r: String)
    ensures
        r@ == index_path_spec(index_root@, name@),
{
    let lower = to_ascii_lowercase(name);
    let p = prefix(lower.as_str());
    proof {
        lemma_ascii_lower_idempotent(name@);
    }
    let dir = path_join(index_root, p.as_str());
    path_join(dir.as_str(), lower.as_str())
}

/// Resolve the path to a .crate file.
pub fn crate_file_path(crates_root: &str, name: &str, version: &str) -> (r: String)
    ensures
        r@ == crate_file_path_spec(crates_root@, name@, version@),
{
    let lower = to_ascii_lowercase(name);
    let p = prefix(lower.as_str());
    proof {
        lemma_ascii_lower_idempotent(name@);
    }
    let a = path_join(crates_root, p.as_str());
    let b = path_join(a.as_str(), lower.as_str());
    let c = path_join(b.as_str(), version);
    let file = crate_file_name_of(lower.as_str(), version);
    path_join(c.as_str(), file.as_str())
}

/// Resolve the path to a .crate file in cargo's flat layout.
/// Cargo stores .crate files as `{cache_root}/{name}-{version}.crate` (flat, no prefix dirs).
pub fn crate_file_path_flat(cache_root: &str, name: &str, version: &str) -> (r: String)
    ensures
        r@ == join_spec(cache_root@, crate_file_name(name@, version@)),
{
    let file = crate_file_name_of(name, version);
    path_join(cache_root, file.as_str())
}


/// Crate names that differ only in ASCII case share their index prefix,
/// index path and archive path: the mirror's layout is case-insensitive.
pub proof fn law_paths_ignore_case(root: Seq<char>, a: Seq<char>, b: Seq<char>, version: Seq<char>)
    requires
        ascii_lower(a) == ascii_lower(b),
    ensures
        prefix_spec(a) == prefix_spec(b),
        index_path_spec(root, a) == index_path_spec(root, b),
        crate_file_path_spec(root, a, version) == crate_file_path_spec(root, b, version),
{
}

/// The prefix by the length of the lowercased name: nothing for the empty
/// name, `1` and `2` for one and two characters, `3/` and the first
/// character for three, and for four or more the first two characters, a
/// `/` and the third and fourth.
pub proof fn law_prefix_shape(name: Seq<char>)
    ensures
        ascii_lower(name).len() == 0 ==> prefix_spec(name) == Seq::<char>::empty(),
        ascii_lower(name).len() == 1 ==> prefix_spec(name) == seq!['1'],
        ascii_lower(name).len() == 2 ==> prefix_spec(name) == seq!['2'],
        ascii_lower(name).len() == 3 ==> prefix_spec(name) == seq!['3', '/', ascii_lower(name)[0]],
        ascii_lower(name).len() >= 4 ==> prefix_spec(name) == seq![
            ascii_lower(name)[0],
            ascii_lower(name)[1],
            '/',
            ascii_lower(name)[2],
            ascii_lower(name)[3],
        ],
{
    let l = ascii_lower(name);
    if l.len() == 3 {
        assert(prefix_spec(name) =~= seq!['3', '/', l[0]]);
    } else if l.len() >= 4 {
        assert(prefix_spec(name) =~= seq![l[0], l[1], '/', l[2], l[3]]);
    }
}

/// No `/` in the text.
pub open spec fn no_slash(s: Seq<char>) -> bool {
    forall|i: int| 0 <= i < s.len() ==> s[i] != '/'
}

proof fn lemma_prefix_no_slash_start(name: Seq<char>)
    requires
        no_slash(ascii_lower(name)),
        ascii_lower(name).len() > 0,
    ensures
        prefix_spec(name).len() > 0,
        prefix_spec(name)[0] != '/',
        prefix_spec(name).last() != '/',
{
    law_prefix_shape(name);
}

/// For a crate name without `/` under a root that does not end in `/`, the
/// index file is `{root}/{prefix}/{lowercased name}` and the archive is
/// `{root}/{prefix}/{lowercased name}/{version}/{lowercased name}-{version}.crate`.
pub proof fn law_paths_layout(root: Seq<char>, name: Seq<char>, version: Seq<char>)
    requires
        root.len() > 0,
        root.last() != '/',
        ascii_lower(name).len() > 0,
        no_slash(ascii_lower(name)),
        version.len() > 0,
        no_slash(version),
    ensures
        index_path_spec(root, name) == root + seq!['/'] + prefix_spec(name) + seq!['/'] + ascii_lower(name),
        crate_file_path_spec(root, name, version) == root + seq!['/'] + prefix_spec(name) + seq!['/']
            + ascii_lower(name) + seq!['/'] + version + seq!['/'] + ascii_lower(name) + seq!['-'] + version + seq![
            '.',
            'c',
            'r',
            'a',
            't',
            'e',
        ],
{
    let l = ascii_lower(name);
    let p = prefix_spec(name);
    lemma_prefix_no_slash_start(name);
    let a = root + seq!['/'] + p;
    assert(join_spec(root, p) == a);
    assert(a.last() == p.last());
    let b = a + seq!['/'] + l;
    assert(l[0] != '/');
    assert(join_spec(a, l) == b);
    assert(b.last() == l.last());
    assert(l.last() == l[l.len() - 1]);
    let c = b + seq!['/'] + version;
    assert(version[0] != '/');
    assert(join_spec(b, version) == c);
    assert(c.last() == version[version.len() - 1]);
    let f = crate_file_name(l, version);
    assert(f[0] == l[0]);
    assert(join_spec(c, f) == c + seq!['/'] + f);
    assert(crate_file_path_spec(root, name, version) =~= root + seq!['/'] + p + seq!['/'] + l + seq!['/'] + version
        + seq!['/'] + l + seq!['-'] + version + seq!['.', 'c', 'r', 'a', 't', 'e']);
}

/// The index file of a crate name of four or more characters lies under
/// `{root}/{first two}/{next two}`: for instance `rand` under `ra/nd`.
pub proof fn law_index_path_of_long_name(root: Seq<char>, name: Seq<char>)
    requires
        root.len() > 0,
        root.last() != '/',
        ascii_lower(name).len() >= 4,
        no_slash(ascii_lower(name)),
    ensures
        index_path_spec(root, name) == root + seq![
            '/',
            ascii_lower(name)[0],
            ascii_lower(name)[1],
            '/',
            ascii_lower(name)[2],
            ascii_lower(name)[3],
            '/',
        ] + ascii_lower(name),
{
    law_prefix_shape(name);
    law_paths_layout(root, name, seq!['0']);
    let l = ascii_lower(name);
    assert(root + seq!['/'] + prefix_spec(name) + seq!['/'] + l =~= root + seq!['/', l[0], l[1], '/', l[2], l[3], '/']
        + l);
}

} // verus!
