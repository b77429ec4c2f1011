use lcrio::index::{
    choose_entry, default_kind, deps_of_kind, find_version, read_latest_version, recent_start, sort_by_name, FeatureEntry,
    IndexDep, IndexEntry, IndexError,
};
use lcrio::lines::{index_lines, last_nonblank_line};

fn feat(name: &str, act: &[&str]) -> FeatureEntry {
    FeatureEntry { name: name.to_string(), activates: act.iter().map(|s| s.to_string()).collect() }
}

fn entry(vers: &str, yanked: bool) -> IndexEntry {
    IndexEntry {
        name: "x".to_string(),
        vers: vers.to_string(),
        deps: vec![],
        cksum: String::new(),
        features: vec![],
        features2: vec![],
        yanked,
        pubtime: None,
    }
}

fn flat(v: &[FeatureEntry]) -> Vec<(String, Vec<String>)> {
    v.iter().map(|f| (f.name.clone(), f.activates.clone())).collect()
}

#[test]
fn all_features_merges_both_maps() {
    let mut e = entry("1.0.0", false);
    e.features = vec![feat("default", &["std"]), feat("std", &[])];
    e.features2 = vec![feat("alloc", &["dep:a"]), feat("std", &["dep:b"])];
    assert!(e.check_wf());
    assert_eq!(
        flat(&e.all_features()),
        vec![
            ("alloc".to_string(), vec!["dep:a".to_string()]),
            ("default".to_string(), vec!["std".to_string()]),
            ("std".to_string(), vec!["dep:b".to_string()]),
        ]
    );
}

#[test]
fn has_feature_is_case_insensitive_on_keys() {
    let mut e = entry("1.0.0", false);
    e.features = vec![feat("Derive", &[])];
    e.features2 = vec![feat("rc", &[])];
    assert!(e.has_feature("derive"));
    assert!(e.has_feature("rc"));
    assert!(!e.has_feature("std"));
}

#[test]
fn unsorted_features_are_not_well_formed() {
    let mut e = entry("1.0.0", false);
    e.features = vec![feat("b", &[]), feat("a", &[])];
    assert!(!e.check_wf());
}

#[test]
fn latest_version_skips_yanked_tail() {
    let v = vec![entry("1.0.0", false), entry("1.1.0", false), entry("1.2.0", true)];
    match read_latest_version(v, "x") {
        Ok(e) => assert_eq!(e.vers, "1.1.0"),
        Err(_) => panic!("expected a version"),
    }
}

#[test]
fn latest_version_error_when_all_yanked() {
    let v = vec![entry("1.0.0", true)];
    match read_latest_version(v, "foo") {
        Ok(_) => panic!("expected an error"),
        Err(e) => {
            assert!(matches!(e, IndexError::NoUnyankedVersion { .. }));
            assert_eq!(e.message(), "no non-yanked versions found for 'foo'");
        }
    }
}

#[test]
fn default_dependency_kind_is_normal() {
    assert_eq!(default_kind(), "normal");
}

#[test]
fn index_lines_trims_and_skips_blank() {
    let content = "  {\"a\":1}  \r\n\n \t \n{\"b\":2}\n";
    assert_eq!(index_lines(content), vec!["{\"a\":1}".to_string(), "{\"b\":2}".to_string()]);
    assert!(index_lines("").is_empty());
    assert_eq!(index_lines("x\r"), vec!["x".to_string()]);
}

#[test]
fn last_nonblank_line_is_untrimmed_latest() {
    assert_eq!(last_nonblank_line("a\n b \n\n  \n"), Some(" b ".to_string()));
    assert_eq!(last_nonblank_line("a\r\nb\r\n"), Some("b".to_string()));
    assert_eq!(last_nonblank_line("x\r"), Some("x\r".to_string()));
    assert_eq!(last_nonblank_line(" \n\u{3000}\n"), None);
    assert_eq!(last_nonblank_line(""), None);
}

fn dep(name: &str, kind: &str) -> IndexDep {
    IndexDep {
        name: name.to_string(),
        req: "*".to_string(),
        features: vec![],
        optional: false,
        default_features: true,
        target: None,
        kind: kind.to_string(),
        package: None,
    }
}

#[test]
fn deps_grouped_by_kind_and_sorted_by_name() {
    let deps = vec![dep("zeta", "normal"), dep("alpha", "dev"), dep("beta", "normal"), dep("Gamma", "normal")];
    let normal = deps_of_kind(&deps, "normal");
    assert_eq!(normal, vec![0, 2, 3]);
    assert_eq!(sort_by_name(&deps, normal), vec![3, 2, 0]);
    assert_eq!(deps_of_kind(&deps, "build"), Vec::<usize>::new());
}

#[test]
fn sort_by_name_keeps_ties_in_order() {
    let deps = vec![dep("b", "normal"), dep("a", "normal"), dep("b", "dev"), dep("a", "dev")];
    assert_eq!(sort_by_name(&deps, vec![0, 1, 2, 3]), vec![1, 3, 0, 2]);
}

#[test]
fn version_lookup_and_choice() {
    let v = vec![entry("1.0.0", false), entry("1.1.0", false), entry("1.1.0", true), entry("2.0.0", true)];
    assert_eq!(find_version(&v, "1.1.0"), Some(1));
    assert_eq!(find_version(&v, "3.0.0"), None);
    assert_eq!(choose_entry(&v, Some("2.0.0")), Ok(3));
    assert_eq!(choose_entry(&v, Some("9")), Err(true));
    assert_eq!(choose_entry(&v, None), Ok(1));
    let all_yanked = vec![entry("1.0.0", true)];
    assert_eq!(choose_entry(&all_yanked, None), Err(false));
}

#[test]
fn recent_versions_are_the_last_ten() {
    assert_eq!(recent_start(3), 0);
    assert_eq!(recent_start(10), 0);
    assert_eq!(recent_start(25), 15);
}
