use vstd::prelude::*;

use crate::index::{
    choose_entry, deps_of_kind, feature_lookup, keys_sorted, last_unyanked, merge_values, recent_start, FeatureEntry,
    IndexDep, IndexEntry,
};
use crate::select::{lemma_select_members, select};

verus! {

/// `n` spaces.
pub open spec fn spaces(n: nat) -> Seq<char> {
    Seq::new(n, |i: int| ' ')
}

/// `s` padded on the right with spaces to `width` characters, as the
/// `{:<width}` format does.
pub open spec fn pad_right(s: Seq<char>, width: nat) -> Seq<char> {
    if s.len() < width {
        s + spaces((width - s.len()) as nat)
    } else {
        s
    }
}

/// The decimal digit for `d` (below ten).
pub open spec fn digit(d: nat) -> char {
    (48 + d) as char
}

/// The decimal numeral of `n`.
pub open spec fn decimal(n: nat) -> Seq<char>
    decreases n,
{
    if n < 10 {
        seq![digit(n)]
    } else {
        decimal(n / 10).push(digit(n % 10))
    }
}

/// What `{:?}` writes for a list of strings: a name for the result of
/// `Debug` on `Vec<String>`, which quotes and escapes each item.
pub uninterp spec fn debug_list(items: Seq<Seq<char>>) -> Seq<char>;

/// `format!("{:?}", items)`: the list written as `Debug` writes it.
#[verifier::external_body]
fn debug_strings(items: &Vec<String>) -> (r: String)
    ensures
        r@ == debug_list(items@.map_values(|s: String| s@)),
{
    format!("{:?}", items)
}

/// The positions of the dependencies of one kind, in order.
pub open spec fn deps_of(deps: Seq<IndexDep>, kind: Seq<char>) -> Seq<int> {
    select(deps.len() as int, |i: int| deps[i].kind@ == kind)
}

/// `  {name} {req}`, with ` (optional)` for an optional dependency when
/// `mark_optional` holds.
pub open spec fn dep_line(d: IndexDep, mark_optional: bool) -> Seq<char> {
    "  "@ + d.name@ + " "@ + d.req@ + (if mark_optional && d.optional {
        " (optional)"@
    } else {
        Seq::empty()
    }) + "\n"@
}

/// The lines of the dependencies at the positions `idx`.
pub open spec fn dep_lines(deps: Seq<IndexDep>, idx: Seq<int>, mark_optional: bool) -> Seq<char>
    decreases idx.len(),
{
    if idx.len() == 0 {
        Seq::empty()
    } else {
        dep_lines(deps, idx.drop_last(), mark_optional) + dep_line(deps[idx.last()], mark_optional)
    }
}

/// A section of dependencies under its heading; nothing when there are none.
pub open spec fn dep_section(heading: Seq<char>, deps: Seq<IndexDep>, idx: Seq<int>, mark_optional: bool) -> Seq<
    char,
> {
    if idx.len() == 0 {
        Seq::empty()
    } else {
        heading + dep_lines(deps, idx, mark_optional)
    }
}

/// `  {name}`, or `  {name} = {activates:?}` when the feature activates
/// anything.
pub open spec fn feature_line(f: FeatureEntry) -> Seq<char> {
    if f.activates@.len() == 0 {
        "  "@ + f.name@ + "\n"@
    } else {
        "  "@ + f.name@ + " = "@ + debug_list(f.activates@.map_values(|s: String| s@)) + "\n"@
    }
}

/// The lines of the features.
pub open spec fn feature_lines(fs: Seq<FeatureEntry>) -> Seq<char>
    decreases fs.len(),
{
    if fs.len() == 0 {
        Seq::empty()
    } else {
        feature_lines(fs.drop_last()) + feature_line(fs.last())
    }
}

/// `  {vers:<14} {date}`, with ` (yanked)` for a yanked version; a version
/// without a date shows `unknown`.
pub open spec fn version_line(e: IndexEntry) -> Seq<char> {
    "  "@ + pad_right(e.vers@, 14) + " "@ + (match e.pubtime {
        Some(d) => d@,
        None => "unknown"@,
    }) + (if e.yanked {
        " (yanked)"@
    } else {
        Seq::empty()
    }) + "\n"@
}

/// The lines of the versions `entries[from..to]`.
pub open spec fn version_lines(entries: Seq<IndexEntry>, from: int, to: int) -> Seq<char>
    decreases to - from,
{
    if to <= from {
        Seq::empty()
    } else {
        version_lines(entries, from, to - 1) + version_line(entries[to - 1])
    }
}

/// The head of a crate summary: `{name} v{vers}`, `Published: {date}` when
/// the version has a date, and `Total versions: {n}`.
pub open spec fn info_head(entries: Seq<IndexEntry>, chosen: int) -> Seq<char> {
    let e = entries[chosen];
    e.name@ + " v"@ + e.vers@ + "\n"@ + (match e.pubtime {
        Some(d) => "Published: "@ + d@ + "\n"@,
        None => Seq::empty(),
    }) + "Total versions: "@ + decimal(entries.len()) + "\n"@
}

/// The dependency sections of a summary: normal (optional ones marked),
/// dev and build dependencies.
pub open spec fn info_deps(e: IndexEntry) -> Seq<char> {
    dep_section("\n[dependencies]\n"@, e.deps@, deps_of(e.deps@, "normal"@), true) + dep_section(
        "\n[dev-dependencies]\n"@,
        e.deps@,
        deps_of(e.deps@, "dev"@),
        false,
    ) + dep_section("\n[build-dependencies]\n"@, e.deps@, deps_of(e.deps@, "build"@), false)
}

/// The feature section of a summary; nothing when there are no features.
pub open spec fn info_features(features: Seq<FeatureEntry>) -> Seq<char> {
    if features.len() == 0 {
        Seq::empty()
    } else {
        "\n[features]\n"@ + feature_lines(features)
    }
}

/// The last ten versions, under their heading.
pub open spec fn info_recent(entries: Seq<IndexEntry>) -> Seq<char> {
    let n = entries.len();
    let start = if n > 10 {
        n - 10
    } else {
        0
    };
    "\nRecent versions:\n"@ + version_lines(entries, start, n as int)
}

/// The summary of the chosen version of a crate: its name and version,
/// publication date, the number of versions, its dependencies by kind,
/// its features, and the last ten versions.
pub open spec fn crate_info_spec(entries: Seq<IndexEntry>, chosen: int, features: Seq<FeatureEntry>) -> Seq<char> {
    info_head(entries, chosen) + info_deps(entries[chosen]) + info_features(features) + info_recent(entries)
}

/// Appends the decimal numeral of `n`.
fn push_decimal(out: &mut String, n: usize)
    ensures
        final(out)@ == old(out)@ + decimal(n as nat),
    decreases n,
{
    if n >= 10 {
        push_decimal(out, n / 10);
    }
    let d = (n % 10) as u8;
    let c = (d + 48) as char;
    crate::lines::push_char(out, c);
    proof {
        assert(c == digit((n % 10) as nat));
        if n >= 10 {
            assert(decimal(n as nat) == decimal((n / 10) as nat).push(digit((n % 10) as nat)));
        }
    }
    assert(final(out)@ =~= old(out)@ + decimal(n as nat));
}

/// Appends `s` padded with spaces to `width` characters.
fn push_padded(out: &mut String, s: &str, width: usize)
    ensures
        final(out)@ == old(out)@ + pad_right(s@, width as nat),
{
    let ghost start = out@;
    out.append(s);
    let len = s.unicode_len();
    let mut k = len;
    let space = " ";
    proof {
        reveal_strlit(" ");
    }
    while k < width
        invariant
            len == s@.len(),
            space@ == seq![' '],
            len <= k <= width || (k == len && len >= width),
            out@ == start + s@ + spaces((k - len) as nat),
        decreases width - k,
    {
        out.append(space);
        proof {
            assert(spaces((k - len) as nat) + seq![' '] =~= spaces((k + 1 - len) as nat));
        }
        k = k + 1;
    }
    proof {
        if len < width {
            assert(k == width);
        } else {
            assert(spaces(0) =~= Seq::<char>::empty());
            assert(s@ + Seq::<char>::empty() =~= s@);
        }
    }
    assert(out@ =~= start + pad_right(s@, width as nat));
}

/// Appends the section of the dependencies of `kind`.
fn push_dep_section(out: &mut String, heading: &str, deps: &Vec<IndexDep>, kind: &str, mark_optional: bool)
    ensures
        final(out)@ == old(out)@ + dep_section(heading@, deps@, deps_of(deps@, kind@), mark_optional),
{
    let idx = deps_of_kind(deps, kind);
    let ghost is = deps_of(deps@, kind@);
    assert(idx@.map_values(|i: usize| i as int) == is);
    proof {
        lemma_select_members(deps@.len() as int, |i: int| deps@[i].kind@ == kind@);
        assert forall|m: int| 0 <= m < is.len() implies 0 <= #[trigger] is[m] < deps@.len() by {
            assert(is[m] == idx@[m] as int);
        }
    }
    if idx.len() == 0 {
        assert(out@ + dep_section(heading@, deps@, is, mark_optional) =~= out@);
        return;
    }
    let ghost start = out@;
    out.append(heading);
    let two = "  ";
    let one = " ";
    let opt = " (optional)";
    let nl = "\n";
    let mut k: usize = 0;
    while k < idx.len()
        invariant
            is == idx@.map_values(|i: usize| i as int),
            forall|m: int| 0 <= m < is.len() ==> 0 <= #[trigger] is[m] < deps@.len(),
            two@ == "  "@,
            one@ == " "@,
            opt@ == " (optional)"@,
            nl@ == "\n"@,
            k <= idx@.len(),
            out@ == start + heading@ + dep_lines(deps@, is.subrange(0, k as int), mark_optional),
        decreases idx@.len() - k,
    {
        assert(is[k as int] == idx@[k as int] as int);
        let d = &deps[idx[k]];
        out.append(two);
        out.append(d.name.as_str());
        out.append(one);
        out.append(d.req.as_str());
        if mark_optional && d.optional {
            out.append(opt);
        }
        out.append(nl);
        proof {
            let pre = is.subrange(0, k + 1);
            assert(pre.drop_last() =~= is.subrange(0, k as int));
            assert(pre.last() == idx@[k as int] as int);
            assert(out@ =~= start + heading@ + dep_lines(deps@, pre, mark_optional));
        }
        k = k + 1;
    }
    proof {
        assert(is.subrange(0, is.len() as int) =~= is);
    }
}

/// Appends the lines of the features.
fn push_feature_lines(out: &mut String, features: &Vec<FeatureEntry>)
    ensures
        final(out)@ == old(out)@ + feature_lines(features@),
{
    let ghost start = out@;
    let two = "  ";
    let eq = " = ";
    let nl = "\n";
    let mut k: usize = 0;
    proof {
        assert(features@.subrange(0, 0) =~= Seq::<FeatureEntry>::empty());
        assert(out@ =~= start + feature_lines(features@.subrange(0, 0)));
    }
    while k < features.len()
        invariant
            k <= features@.len(),
            out@ == start + feature_lines(features@.subrange(0, k as int)),
            two@ == "  "@,
            eq@ == " = "@,
            nl@ == "\n"@,
        decreases features@.len() - k,
    {
        let f = &features[k];
        out.append(two);
        out.append(f.name.as_str());
        if f.activates.len() > 0 {
            out.append(eq);
            let list = debug_strings(&f.activates);
            out.append(list.as_str());
        }
        out.append(nl);
        proof {
            let pre = features@.subrange(0, k + 1);
            assert(pre.drop_last() =~= features@.subrange(0, k as int));
            assert(pre.last() == features@[k as int]);
            assert(out@ =~= start + feature_lines(pre));
        }
        k = k + 1;
    }
    proof {
        assert(features@.subrange(0, features@.len() as int) =~= features@);
    }
}

/// Appends the lines of the versions `entries[from..]`.
fn push_version_lines(out: &mut String, entries: &Vec<IndexEntry>, from: usize)
    requires
        from <= entries@.len(),
    ensures
        final(out)@ == old(out)@ + version_lines(entries@, from as int, entries@.len() as int),
{
    let ghost start = out@;
    let two = "  ";
    let one = " ";
    let unknown = "unknown";
    let yanked = " (yanked)";
    let nl = "\n";
    let mut k = from;
    while k < entries.len()
        invariant
            from <= k <= entries@.len(),
            out@ == start + version_lines(entries@, from as int, k as int),
            two@ == "  "@,
            one@ == " "@,
            unknown@ == "unknown"@,
            yanked@ == " (yanked)"@,
            nl@ == "\n"@,
        decreases entries@.len() - k,
    {
        let e = &entries[k];
        out.append(two);
        push_padded(out, e.vers.as_str(), 14);
        out.append(one);
        match &e.pubtime {
            Some(d) => out.append(d.as_str()),
            None => out.append(unknown),
        }
        if e.yanked {
            out.append(yanked);
        }
        out.append(nl);
        proof {
            assert(out@ =~= start + version_lines(entries@, from as int, k + 1));
        }
        k = k + 1;
    }
}

/// Appends the head of the summary.
fn push_info_head(out: &mut String, entries: &Vec<IndexEntry>, chosen: usize)
    requires
        chosen < entries@.len(),
    ensures
        final(out)@ == old(out)@ + info_head(entries@, chosen as int),
{
    let ghost start = out@;
    let e = &entries[chosen];
    out.append(e.name.as_str());
    out.append(" v");
    out.append(e.vers.as_str());
    out.append("\n");
    let ghost first = out@;
    match &e.pubtime {
        Some(d) => {
            out.append("Published: ");
            out.append(d.as_str());
            out.append("\n");
        },
        None => {},
    }
    let ghost second = out@;
    out.append("Total versions: ");
    push_decimal(out, entries.len());
    out.append("\n");
    proof {
        let pub_part = match entries@[chosen as int].pubtime {
            Some(d) => "Published: "@ + d@ + "\n"@,
            None => Seq::empty(),
        };
        assert(first =~= start + (e.name@ + " v"@ + e.vers@ + "\n"@));
        assert(second =~= first + pub_part);
        assert(out@ =~= start + info_head(entries@, chosen as int));
    }
}

/// The summary of version `chosen` of a crate whose versions are `entries`
/// (oldest first), with `features`, the merged feature list of that
/// version: name and version, publication date, the number of versions,
/// the dependencies by kind, the features, and the last ten versions.
pub fn crate_info_text(entries: &Vec<IndexEntry>, chosen: usize, features: &Vec<FeatureEntry>) -> (r: String)
    requires
        chosen < entries@.len(),
    ensures
        r@ == crate_info_spec(entries@, chosen as int, features@),
{
    let e = &entries[chosen];
    let mut out = String::new();
    push_info_head(&mut out, entries, chosen);
    let ghost head = out@;
    push_dep_section(&mut out, "\n[dependencies]\n", &e.deps, "normal", true);
    push_dep_section(&mut out, "\n[dev-dependencies]\n", &e.deps, "dev", false);
    push_dep_section(&mut out, "\n[build-dependencies]\n", &e.deps, "build", false);
    proof {
        assert(out@ =~= head + info_deps(entries@[chosen as int]));
    }
    let ghost with_deps = out@;
    if features.len() > 0 {
        out.append("\n[features]\n");
        push_feature_lines(&mut out, features);
    }
    proof {
        assert(out@ =~= with_deps + info_features(features@));
    }
    let ghost with_feats = out@;
    out.append("\nRecent versions:\n");
    let start = recent_start(entries.len());
    push_version_lines(&mut out, entries, start);
    proof {
        assert(out@ =~= with_feats + info_recent(entries@));
        assert(head =~= Seq::<char>::empty() + info_head(entries@, chosen as int));
    }
    out
}

/// `fs` is the merged feature list of `e`: its keys in ascending order, each
/// mapped to the values of `features`, then those of `features2`.
pub open spec fn merged_features(e: IndexEntry, fs: Seq<FeatureEntry>) -> bool {
    &&& keys_sorted(fs)
    &&& forall|k: Seq<char>|
        #![trigger feature_lookup(fs, k)]
        feature_lookup(fs, k) == merge_values(feature_lookup(e.features@, k), feature_lookup(e.features2@, k))
}

/// The version a summary describes is at `i`: the first one published as
/// the named version, or else the latest that is not yanked.
pub open spec fn picked(entries: Seq<IndexEntry>, version: Option<&str>, i: int) -> bool {
    match version {
        Some(v) => 0 <= i < entries.len() && entries[i].vers@ == v@ && forall|j: int|
            0 <= j < i ==> (#[trigger] entries[j]).vers@ != v@,
        None => last_unyanked(entries) == Some(i),
    }
}

/// No version can be described: the named version is not there, or every
/// version is yanked.
pub open spec fn nothing_to_pick(entries: Seq<IndexEntry>, version: Option<&str>) -> bool {
    match version {
        Some(v) => forall|j: int| 0 <= j < entries.len() ==> (#[trigger] entries[j]).vers@ != v@,
        None => last_unyanked(entries) is None,
    }
}

/// The answer when no version can be described.
pub open spec fn pick_error(name: Seq<char>, version: Option<&str>) -> Seq<char> {
    match version {
        Some(v) => "Version "@ + v@ + " not found for '"@ + name + "'"@,
        None => "No non-yanked versions found for '"@ + name + "'"@,
    }
}

/// The summary of crate `name` whose versions are `entries` (oldest first):
/// of the named version, or else of the latest that is not yanked, with
/// that version's merged features; or the error text when there is no such
/// version.
pub fn crate_info(entries: &Vec<IndexEntry>, name: &str, version: Option<&str>) -> (r: Result<String, String>)
    requires
        forall|i: int| 0 <= i < entries@.len() ==> (#[trigger] entries@[i]).wf(),
    ensures
        match r {
            Ok(t) => exists|i: int, fs: Seq<FeatureEntry>|
                #![trigger crate_info_spec(entries@, i, fs)]
                picked(entries@, version, i) && merged_features(entries@[i], fs) && t@ == crate_info_spec(
                    entries@,
                    i,
                    fs,
                ),
            Err(t) => nothing_to_pick(entries@, version) && t@ == pick_error(name@, version),
        },
{
    proof {
        crate::index::law_latest_is_last_unyanked(entries@);
    }
    let all = entries.as_slice();
    let count = entries.len();
    assert(all@ == entries@ && count == entries@.len());
    match choose_entry(all, version) {
        Ok(i) => {
            let features = entries[i].all_features();
            let t = crate_info_text(entries, i, &features);
            proof {
                assert(picked(entries@, version, i as int));
                assert(merged_features(entries@[i as int], features@));
            }
            Ok(t)
        },
        Err(_) => {
            let mut t = String::new();
            match version {
                Some(v) => {
                    t.append("Version ");
                    t.append(v);
                    t.append(" not found for '");
                    t.append(name);
                    t.append("'");
                },
                None => {
                    t.append("No non-yanked versions found for '");
                    t.append(name);
                    t.append("'");
                },
            }
            assert(t@ =~= pick_error(name@, version));
            Err(t)
        },
    }
}

/// The lines `  {name}` of a list of crate names.
pub open spec fn name_lines(names: Seq<String>) -> Seq<char>
    decreases names.len(),
{
    if names.len() == 0 {
        Seq::empty()
    } else {
        name_lines(names.drop_last()) + "  "@ + names.last()@ + "\n"@
    }
}

/// The answer to a search for crates that depend on `query`, or, with
/// `by_feature`, that have the feature `query`: a line per crate under a
/// heading that counts them, or a sentence saying that none was found.
pub open spec fn results_text_spec(query: Seq<char>, results: Seq<String>, by_feature: bool) -> Seq<char> {
    if results.len() == 0 {
        if by_feature {
            "No crates found with feature '"@ + query + "'"@
        } else {
            "No crates found that depend on '"@ + query + "'"@
        }
    } else {
        (if by_feature {
            "Crates with feature '"@
        } else {
            "Crates depending on '"@
        }) + query + "' ("@ + decimal(results.len()) + " results):\n"@ + name_lines(results)
    }
}

/// The answer to a dependency search (`by_feature` false) or a feature
/// search (`by_feature` true) for `query` that found `results`.
pub fn results_text(query: &str, results: &Vec<String>, by_feature: bool) -> (r: String)
    ensures
        r@ == results_text_spec(query@, results@, by_feature),
{
    let mut out = String::new();
    if results.len() == 0 {
        if by_feature {
            out.append("No crates found with feature '");
        } else {
            out.append("No crates found that depend on '");
        }
        out.append(query);
        out.append("'");
        assert(out@ =~= results_text_spec(query@, results@, by_feature));
        return out;
    }
    if by_feature {
        out.append("Crates with feature '");
    } else {
        out.append("Crates depending on '");
    }
    out.append(query);
    out.append("' (");
    push_decimal(&mut out, results.len());
    out.append(" results):\n");
    let ghost head = out@;
    let two = "  ";
    let nl = "\n";
    let mut k: usize = 0;
    proof {
        assert(results@.subrange(0, 0) =~= Seq::<String>::empty());
        assert(out@ =~= head + name_lines(results@.subrange(0, 0)));
    }
    while k < results.len()
        invariant
            k <= results@.len(),
            out@ == head + name_lines(results@.subrange(0, k as int)),
            two@ == "  "@,
            nl@ == "\n"@,
        decreases results@.len() - k,
    {
        out.append(two);
        out.append(results[k].as_str());
        out.append(nl);
        proof {
            let pre = results@.subrange(0, k + 1);
            assert(pre.drop_last() =~= results@.subrange(0, k as int));
            assert(pre.last() == results@[k as int]);
            assert(out@ =~= head + name_lines(pre));
        }
        k = k + 1;
    }
    proof {
        assert(results@.subrange(0, results@.len() as int) =~= results@);
        assert(out@ =~= results_text_spec(query@, results@, by_feature));
    }
    out
}

/// The summary, section by section: `{name} v{vers}`, the date line when
/// there is a date, `Total versions: {n}`; then the normal, dev and build
/// dependencies, each under its heading and only when there are any, the
/// normal ones marking the optional; then the features under their heading
/// when there are any; then the last ten versions (all when there are
/// fewer) under `Recent versions:`.
pub proof fn law_summary_layout(entries: Seq<IndexEntry>, chosen: int, features: Seq<FeatureEntry>)
    requires
        0 <= chosen < entries.len(),
    ensures
        crate_info_spec(entries, chosen, features) == info_head(entries, chosen) + info_deps(entries[chosen])
            + info_features(features) + info_recent(entries),
        info_head(entries, chosen) == entries[chosen].name@ + " v"@ + entries[chosen].vers@ + "\n"@ + (match entries[chosen].pubtime {
            Some(t) => "Published: "@ + t@ + "\n"@,
            None => Seq::empty(),
        }) + "Total versions: "@ + decimal(entries.len()) + "\n"@,
        info_deps(entries[chosen]) == kind_section(entries[chosen].deps@, "normal"@, "\n[dependencies]\n"@, true)
            + kind_section(entries[chosen].deps@, "dev"@, "\n[dev-dependencies]\n"@, false) + kind_section(
            entries[chosen].deps@,
            "build"@,
            "\n[build-dependencies]\n"@,
            false,
        ),
        info_features(features) == if features.len() > 0 {
            "\n[features]\n"@ + feature_lines(features)
        } else {
            Seq::empty()
        },
        info_recent(entries) == "\nRecent versions:\n"@ + version_lines(
            entries,
            if entries.len() > 10 {
                entries.len() - 10
            } else {
                0
            },
            entries.len() as int,
        ),
{
    let d = entries[chosen].deps@;
    assert(deps_of(d, "normal"@) == select(d.len() as int, |i: int| d[i].kind@ == "normal"@));
    assert(deps_of(d, "dev"@) == select(d.len() as int, |i: int| d[i].kind@ == "dev"@));
    assert(deps_of(d, "build"@) == select(d.len() as int, |i: int| d[i].kind@ == "build"@));
}

/// The dependencies of one kind under `heading`, one line each in order,
/// when there are any; nothing otherwise.
pub open spec fn kind_section(deps: Seq<IndexDep>, kind: Seq<char>, heading: Seq<char>, mark_optional: bool) -> Seq<
    char,
> {
    let listed = select(deps.len() as int, |i: int| deps[i].kind@ == kind);
    if listed.len() > 0 {
        heading + dep_lines(deps, listed, mark_optional)
    } else {
        Seq::empty()
    }
}

/// The positions listed for a dependency kind (`select` of the kind test,
/// as the summary lists them) are exactly those of the dependencies of that
/// kind, in increasing order.
pub proof fn law_kind_positions(deps: Seq<IndexDep>, kind: Seq<char>, listed: Seq<int>)
    requires
        listed == select(deps.len() as int, |i: int| deps[i].kind@ == kind),
    ensures
        forall|k: int| 0 <= k < listed.len() ==> 0 <= #[trigger] listed[k] < deps.len() && deps[listed[k]].kind@ == kind,
        forall|j: int| 0 <= j < deps.len() && (#[trigger] deps[j]).kind@ == kind ==> listed.contains(j),
        forall|a: int, b: int| 0 <= a < b < listed.len() ==> #[trigger] listed[a] < #[trigger] listed[b],
{
    let p = |i: int| deps[i].kind@ == kind;
    let n = deps.len() as int;
    crate::select::lemma_select_members(n, p);
    crate::search::lemma_select_increasing(n, p);
    assert forall|j: int| 0 <= j < deps.len() && (#[trigger] deps[j]).kind@ == kind implies listed.contains(j) by {
        crate::search::lemma_select_contains(n, p, j);
    }
}

/// One more dependency adds its line `  {name} {req}`, followed by
/// ` (optional)` for an optional one when optional ones are marked; no
/// dependencies give no lines.
pub proof fn law_dep_lines_step(deps: Seq<IndexDep>, idx: Seq<int>, j: int, mark_optional: bool)
    ensures
        dep_lines(deps, Seq::empty(), mark_optional) == Seq::<char>::empty(),
        dep_lines(deps, idx.push(j), mark_optional) == dep_lines(deps, idx, mark_optional) + "  "@ + deps[j].name@
            + " "@ + deps[j].req@ + (if mark_optional && deps[j].optional {
            " (optional)"@
        } else {
            Seq::empty()
        }) + "\n"@,
{
    assert(idx.push(j).drop_last() =~= idx);
    assert(dep_lines(deps, idx.push(j), mark_optional) =~= dep_lines(deps, idx, mark_optional) + "  "@
        + deps[j].name@ + " "@ + deps[j].req@ + (if mark_optional && deps[j].optional {
        " (optional)"@
    } else {
        Seq::empty()
    }) + "\n"@);
}

/// One more feature adds `  {name}`, or `  {name} = {activates:?}` when it
/// activates anything.
pub proof fn law_feature_lines_step(fs: Seq<FeatureEntry>, f: FeatureEntry)
    ensures
        feature_lines(Seq::empty()) == Seq::<char>::empty(),
        feature_lines(fs.push(f)) == feature_lines(fs) + if f.activates@.len() == 0 {
            "  "@ + f.name@ + "\n"@
        } else {
            "  "@ + f.name@ + " = "@ + debug_list(f.activates@.map_values(|s: String| s@)) + "\n"@
        },
{
    assert(fs.push(f).drop_last() =~= fs);
    assert(fs.push(f).last() == f);
}

/// One more version adds `  {vers padded to 14} {date or unknown}`, with
/// ` (yanked)` for a yanked one; an empty range gives no lines.
pub proof fn law_version_lines_step(entries: Seq<IndexEntry>, from: int, to: int)
    requires
        from <= to,
    ensures
        version_lines(entries, from, from) == Seq::<char>::empty(),
        version_lines(entries, from, to + 1) == version_lines(entries, from, to) + "  "@ + pad_right(
            entries[to].vers@,
            14,
        ) + " "@ + (match entries[to].pubtime {
            Some(d) => d@,
            None => "unknown"@,
        }) + (if entries[to].yanked {
            " (yanked)"@
        } else {
            Seq::empty()
        }) + "\n"@,
{
    assert(version_lines(entries, from, to + 1) =~= version_lines(entries, from, to) + "  "@ + pad_right(
        entries[to].vers@,
        14,
    ) + " "@ + (match entries[to].pubtime {
        Some(d) => d@,
        None => "unknown"@,
    }) + (if entries[to].yanked {
        " (yanked)"@
    } else {
        Seq::empty()
    }) + "\n"@);
}

/// Padding keeps the text and fills with spaces up to the width: the result
/// has the larger of the two lengths.
pub proof fn law_pad_right(s: Seq<char>, width: nat)
    ensures
        pad_right(s, width).len() == if s.len() < width {
            width as int
        } else {
            s.len() as int
        },
        pad_right(s, width).subrange(0, s.len() as int) == s,
        forall|i: int| s.len() <= i < pad_right(s, width).len() ==> #[trigger] pad_right(s, width)[i] == ' ',
{
    assert(pad_right(s, width).subrange(0, s.len() as int) =~= s);
}

/// The number a text of decimal digits stands for.
pub open spec fn digits_value(s: Seq<char>) -> int
    decreases s.len(),
{
    if s.len() == 0 {
        0
    } else {
        digits_value(s.drop_last()) * 10 + (s.last() as int - 48)
    }
}

/// The numeral of `n` is made of decimal digits, stands for `n`, and has no
/// leading zero.
pub proof fn law_decimal(n: nat)
    ensures
        forall|i: int| 0 <= i < decimal(n).len() ==> '0' <= #[trigger] decimal(n)[i] <= '9',
        digits_value(decimal(n)) == n,
        decimal(n).len() > 0,
        n > 0 ==> decimal(n)[0] != '0',
    decreases n,
{
    if n >= 10 {
        law_decimal(n / 10);
        let t = decimal(n / 10);
        let d = decimal(n);
        assert(d == t.push(digit(n % 10)));
        assert(d.drop_last() =~= t);
        assert(d[0] == t[0]);
        assert((n / 10) * 10 + n % 10 == n);
        assert(digit(n % 10) as int == 48 + n % 10);
        assert(d.last() == digit(n % 10));
        assert(digits_value(d) == digits_value(t) * 10 + (n % 10));
        assert(digits_value(t) == n / 10);
        assert(digits_value(d) == n);
    } else {
        let d = decimal(n);
        assert(digit(n) as int == 48 + n);
        assert(d.drop_last() =~= Seq::<char>::empty());
        assert(digits_value(Seq::<char>::empty()) == 0);
        assert(d.last() == digit(n));
        assert(digits_value(d) == digits_value(d.drop_last()) * 10 + (d.last() as int - 48));
    }
}

/// One more name adds the line `  {name}`.
pub proof fn law_name_lines_step(names: Seq<String>, name: String)
    ensures
        name_lines(Seq::empty()) == Seq::<char>::empty(),
        name_lines(names.push(name)) == name_lines(names) + "  "@ + name@ + "\n"@,
{
    assert(names.push(name).drop_last() =~= names);
}

/// A search that found nothing says so, naming the query; otherwise the
/// answer counts the crates under a heading naming the query, then lists
/// them one per line in the order found.
pub proof fn law_results_text(query: Seq<char>, results: Seq<String>, by_feature: bool)
    ensures
        results.len() == 0 && !by_feature ==> results_text_spec(query, results, by_feature)
            == "No crates found that depend on '"@ + query + "'"@,
        results.len() == 0 && by_feature ==> results_text_spec(query, results, by_feature)
            == "No crates found with feature '"@ + query + "'"@,
        results.len() > 0 && !by_feature ==> results_text_spec(query, results, by_feature) == "Crates depending on '"@
            + query + "' ("@ + decimal(results.len()) + " results):\n"@ + name_lines(results),
        results.len() > 0 && by_feature ==> results_text_spec(query, results, by_feature) == "Crates with feature '"@
            + query + "' ("@ + decimal(results.len()) + " results):\n"@ + name_lines(results),
{
}

/// The answer when nothing can be described names the missing version and
/// the crate, or says that every version of the crate is yanked.
pub proof fn law_pick_error(name: Seq<char>, version: Option<&str>)
    ensures
        version matches Some(v) ==> pick_error(name, version) == "Version "@ + v@ + " not found for '"@ + name + "'"@,
        version is None ==> pick_error(name, version) == "No non-yanked versions found for '"@ + name + "'"@,
{
}

} // verus!
