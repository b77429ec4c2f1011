use lcrio::index::{FeatureEntry, IndexDep, IndexEntry};
use lcrio::report::{crate_info, crate_info_text, results_text};

fn dep(name: &str, req: &str, kind: &str, optional: bool) -> IndexDep {
    IndexDep {
        name: name.to_string(),
        req: req.to_string(),
        features: vec![],
        optional,
        default_features: true,
        target: None,
        kind: kind.to_string(),
        package: None,
    }
}

fn version(vers: &str, yanked: bool, pubtime: Option<&str>) -> IndexEntry {
    IndexEntry {
        name: "demo".to_string(),
        vers: vers.to_string(),
        deps: vec![],
        cksum: String::new(),
        features: vec![],
        features2: vec![],
        yanked,
        pubtime: pubtime.map(|s| s.to_string()),
    }
}

#[test]
fn summary_lists_head_deps_features_and_recent_versions() {
    let mut latest = version("1.2.0", false, Some("2024-01-02"));
    latest.deps = vec![
        dep("serde", "^1", "normal", true),
        dep("anyhow", "^1", "normal", false),
        dep("tempfile", "^3", "dev", true),
    ];
    let entries = vec![version("1.0.0", true, None), latest];
    let features = vec![
        FeatureEntry { name: "default".to_string(), activates: vec!["std".to_string(), "dep:serde".to_string()] },
        FeatureEntry { name: "std".to_string(), activates: vec![] },
    ];
    let text = crate_info_text(&entries, 1, &features);
    let expected = "demo v1.2.0\n\
Published: 2024-01-02\n\
Total versions: 2\n\
\n[dependencies]\n  serde ^1 (optional)\n  anyhow ^1\n\
\n[dev-dependencies]\n  tempfile ^3\n\
\n[features]\n  default = [\"std\", \"dep:serde\"]\n  std\n\
\nRecent versions:\n  1.0.0          unknown (yanked)\n  1.2.0          2024-01-02\n";
    assert_eq!(text, expected);
}

#[test]
fn summary_shows_only_the_last_ten_versions() {
    let entries: Vec<IndexEntry> = (0..12).map(|i| version(&format!("0.{}.0", i), false, None)).collect();
    let text = crate_info_text(&entries, 11, &[].to_vec());
    assert!(text.starts_with("demo v0.11.0\nTotal versions: 12\n\nRecent versions:\n"));
    assert!(!text.contains("0.1.0 "));
    assert!(text.contains("  0.2.0          unknown\n"));
    assert!(text.ends_with("  0.11.0         unknown\n"));
}

#[test]
fn summary_errors_name_the_missing_version() {
    let entries = vec![version("1.0.0", true, None)];
    assert_eq!(crate_info(&entries, "demo", Some("2.0.0")), Err("Version 2.0.0 not found for 'demo'".to_string()));
    assert_eq!(crate_info(&entries, "demo", None), Err("No non-yanked versions found for 'demo'".to_string()));
    let text = crate_info(&entries, "demo", Some("1.0.0")).unwrap();
    assert!(text.starts_with("demo v1.0.0\nTotal versions: 1\n"));
}

#[test]
fn summary_merges_the_feature_lists() {
    let mut e = version("1.0.0", false, None);
    e.features = vec![FeatureEntry { name: "std".to_string(), activates: vec!["alloc".to_string()] }];
    e.features2 = vec![FeatureEntry { name: "serde".to_string(), activates: vec!["dep:serde".to_string()] }];
    let text = crate_info(&vec![e], "demo", None).unwrap();
    assert!(text.contains("\n[features]\n  serde = [\"dep:serde\"]\n  std = [\"alloc\"]\n"));
}

#[test]
fn dependency_and_feature_result_texts() {
    let none: Vec<String> = vec![];
    assert_eq!(results_text("serde", &none, false), "No crates found that depend on 'serde'");
    assert_eq!(results_text("std", &none, true), "No crates found with feature 'std'");
    let found = vec!["a".to_string(), "b".to_string()];
    assert_eq!(results_text("serde", &found, false), "Crates depending on 'serde' (2 results):\n  a\n  b\n");
    assert_eq!(results_text("std", &found, true), "Crates with feature 'std' (2 results):\n  a\n  b\n");
}
