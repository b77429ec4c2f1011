use lcrio::config::LcrioConfig;
use lcrio::index::IndexEntry;
use lcrio::search::{build_name_index, search_names, walk_keeps, MatchCollector, MatchType, NameHit};
use lcrio::Lcrio;

fn strings(v: &[&str]) -> Vec<String> {
    v.iter().map(|s| s.to_string()).collect()
}

fn summary(hits: &[NameHit]) -> Vec<(String, MatchType, u64)> {
    hits.iter().map(|h| (h.name.clone(), h.match_type, h.fuzzy_key)).collect()
}

#[test]
fn exact_prefix_contains_in_order() {
    let names = strings(&["serde", "serde_derive", "serde_json", "tokio", "xserde"]);
    let st = search_names(&names, "Serde", 20);
    assert!(st.needs_fuzzy());
    let fuzzy = vec![None; names.len()];
    let hits = st.finish(&names, &fuzzy);
    assert_eq!(
        summary(&hits),
        vec![
            ("serde".to_string(), MatchType::Exact, 0),
            ("serde_derive".to_string(), MatchType::Prefix, 0),
            ("serde_json".to_string(), MatchType::Prefix, 0),
            ("xserde".to_string(), MatchType::Contains, 0),
        ]
    );
    assert_eq!(hits[0].index, 0);
    assert_eq!(hits[3].index, 4);
}

#[test]
fn fuzzy_ranked_by_key_stably() {
    let names = strings(&["abc", "abd", "abe"]);
    let st = search_names(&names, "abx", 2);
    assert!(st.needs_fuzzy());
    let fuzzy = vec![Some(5), Some(9), Some(5)];
    let hits = st.finish(&names, &fuzzy);
    assert_eq!(
        summary(&hits),
        vec![("abd".to_string(), MatchType::Fuzzy, 9), ("abc".to_string(), MatchType::Fuzzy, 5)]
    );
}

#[test]
fn fuzzy_skips_names_that_contain_the_query() {
    let names = strings(&["ab", "xaby", "zzz"]);
    let st = search_names(&names, "ab", 5);
    assert!(!st.is_fuzzy_candidate(&names, 0));
    assert!(!st.is_fuzzy_candidate(&names, 1));
    assert!(st.is_fuzzy_candidate(&names, 2));
    let hits = st.finish(&names, &[Some(7), Some(7), Some(3)]);
    assert_eq!(
        summary(&hits),
        vec![
            ("ab".to_string(), MatchType::Exact, 0),
            ("xaby".to_string(), MatchType::Contains, 0),
            ("zzz".to_string(), MatchType::Fuzzy, 3),
        ]
    );
}

#[test]
fn prefix_phase_stops_at_twice_the_limit() {
    let names = strings(&["aa", "ab0", "ab1", "ab2", "ab3", "ab4", "ab5", "xab"]);
    let st = search_names(&names, "ab", 2);
    assert!(!st.needs_fuzzy());
    let hits = st.finish(&names, &[]);
    assert_eq!(
        summary(&hits),
        vec![("ab0".to_string(), MatchType::Prefix, 0), ("ab1".to_string(), MatchType::Prefix, 0)]
    );
}

#[test]
fn zero_limit_gives_nothing() {
    let names = strings(&["serde"]);
    let st = search_names(&names, "serde", 0);
    assert!(!st.needs_fuzzy());
    assert!(st.finish(&names, &[]).is_empty());
}

#[test]
fn no_match_gives_nothing() {
    let names = strings(&["alpha", "beta"]);
    let st = search_names(&names, "zzz", 10);
    assert!(st.needs_fuzzy());
    assert!(st.finish(&names, &[None, None]).is_empty());
}

#[test]
fn exact_match_comes_first_even_with_many_prefixes() {
    let names = strings(&["tok", "toka", "tokb", "tokc"]);
    let st = search_names(&names, "tok", 1);
    let hits = st.finish(&names, &[]);
    assert_eq!(summary(&hits), vec![("tok".to_string(), MatchType::Exact, 0)]);
}

#[test]
fn match_type_labels() {
    assert_eq!(MatchType::Exact.label(), "exact");
    assert_eq!(MatchType::Prefix.label(), "prefix");
    assert_eq!(MatchType::Contains.label(), "contains");
    assert_eq!(MatchType::Fuzzy.label(), "fuzzy");
}

#[test]
fn name_index_filters_sorts_and_dedups() {
    let files = strings(&["tokio", ".hidden", "config.json", "anyhow", "tokio", "Zed"]);
    assert_eq!(build_name_index(files), strings(&["Zed", "anyhow", "tokio"]));
}

#[test]
fn walk_skips_git_and_config() {
    assert!(!walk_keeps(".git"));
    assert!(!walk_keeps(".github"));
    assert!(!walk_keeps("config.json"));
    assert!(walk_keeps("se"));
}

fn entry(name: &str, yanked: bool, deps: &[&str]) -> IndexEntry {
    IndexEntry {
        name: name.to_string(),
        vers: "1.0.0".to_string(),
        deps: deps
            .iter()
            .map(|d| lcrio::index::IndexDep {
                name: d.to_string(),
                req: "^1".to_string(),
                features: vec![],
                optional: false,
                default_features: true,
                target: None,
                kind: "normal".to_string(),
                package: None,
            })
            .collect(),
        cksum: String::new(),
        features: vec![],
        features2: vec![],
        yanked,
        pubtime: None,
    }
}

#[test]
fn dep_collector_keeps_matching_unyanked_and_stops_at_limit() {
    let mut c = MatchCollector::new("Serde", 2);
    let a = entry("a", false, &["SERDE"]);
    let b = entry("b", true, &["serde"]);
    let d = entry("d", false, &["rand"]);
    let e = entry("e", false, &["serde"]);
    c.offer_dep(&"a".to_string(), Some(&a));
    assert!(!c.is_done());
    c.offer_dep(&"b".to_string(), Some(&b));
    c.offer_dep(&"c".to_string(), None);
    c.offer_dep(&"d".to_string(), Some(&d));
    assert!(!c.is_done());
    c.offer_dep(&"e".to_string(), Some(&e));
    assert!(c.is_done());
    assert_eq!(c.into_results(), strings(&["a", "e"]));
}

#[test]
fn zero_limit_collector_keeps_nothing() {
    let c = MatchCollector::new("serde", 0);
    assert!(c.is_done());
    assert_eq!(c.into_results(), strings(&[]));
}

#[test]
fn lcrio_search_uses_loaded_index_and_default_limit() {
    let mut l = Lcrio::new(LcrioConfig {
        panamax_root: "/m".to_string(),
        cache_dir: "/c".to_string(),
        search_limit: 1,
    });
    assert!(!l.names_loaded());
    l.load_names(strings(&["b", "a", "ab"]));
    assert!(l.names_loaded());
    l.load_names(strings(&["zzz"]));
    assert_eq!(l.names().to_vec(), strings(&["a", "ab", "b"]));
    let st = l.search("A", None);
    let names = l.names().to_vec();
    let hits = st.finish(&names, &[]);
    assert_eq!(summary(&hits), vec![("a".to_string(), MatchType::Exact, 0)]);
}

#[test]
fn repeated_name_is_exact_once_then_prefix() {
    let names = strings(&["a", "a", "ab", "b"]);
    let st = search_names(&names, "A", 5);
    let hits = st.finish(&names, &[]);
    assert_eq!(
        summary(&hits),
        vec![
            ("a".to_string(), MatchType::Exact, 0),
            ("a".to_string(), MatchType::Prefix, 0),
            ("ab".to_string(), MatchType::Prefix, 0),
        ]
    );
    assert_eq!(hits[0].index, 0);
    assert_eq!(hits[1].index, 1);
}

#[test]
fn query_case_does_not_matter() {
    let names = strings(&["serde", "serde_json", "xserde"]);
    let upper = search_names(&names, "SeRdE", 3).finish(&names, &[]);
    let lower = search_names(&names, "serde", 3).finish(&names, &[]);
    assert_eq!(summary(&upper), summary(&lower));
    assert_eq!(upper.len(), 3);
}

#[test]
fn zero_limit_search_finds_nothing() {
    let names = strings(&["serde"]);
    let st = search_names(&names, "serde", 0);
    assert!(!st.needs_fuzzy());
    assert!(st.finish(&names, &[]).is_empty());
}

#[test]
fn no_limit_means_the_configured_one() {
    let mut l = Lcrio::new(LcrioConfig {
        panamax_root: "/m".to_string(),
        cache_dir: "/c".to_string(),
        search_limit: 2,
    });
    l.load_names(strings(&["ab", "abc", "abd", "x"]));
    assert_eq!(l.config().search_limit, 2);
    let names = l.names().to_vec();
    let default = l.search("ab", None).finish(&names, &[]);
    let explicit = l.search("ab", Some(2)).finish(&names, &[]);
    assert_eq!(summary(&default), summary(&explicit));
    assert_eq!(default.len(), 2);
}

#[test]
fn dependency_scan_keeps_first_matches_up_to_limit() {
    let names = strings(&["a", "b", "c", "d", "e"]);
    let entries = vec![
        Some(entry("a", false, &["serde"])),
        Some(entry("b", true, &["serde"])),
        None,
        Some(entry("d", false, &["Serde"])),
        Some(entry("e", false, &["serde"])),
    ];
    let mut c = MatchCollector::new("SERDE", 2);
    for (name, e) in names.iter().zip(entries.iter()) {
        if c.is_done() {
            break;
        }
        c.offer_dep(name, e.as_ref());
    }
    assert_eq!(c.into_results(), strings(&["a", "d"]));
}
