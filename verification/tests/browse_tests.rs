use lcrio::browse::{
    check_crate_dir, check_within_root, crate_root_path, file_path, filter_paths, glob_match, matches_pattern,
    BrowseError,
};
use lcrio::config::LcrioConfig;
use lcrio::unpack::{
    cargo_source_dir, cargo_source_path, unpack_decide, unpack_finish, unpack_plan, unpacked_dir, UnpackError,
    UnpackStep,
};
use lcrio::workspace::{find_cargo_lock, registry_packages, workspace_crate_names, LockPackage, LockStep};

#[test]
fn glob_double_star_with_extension() {
    assert!(glob_match("src/lib.rs", "src/**/*.rs"));
    assert!(glob_match("src/a/b.rs", "src/**/*.rs"));
    assert!(!glob_match("tests/a.rs", "src/**/*.rs"));
    assert!(!glob_match("src/a.toml", "src/**/*.rs"));
    assert!(!glob_match("srcfoo/x.rs", "src/**/*.rs"));
}

#[test]
fn glob_double_star_with_plain_suffix() {
    assert!(glob_match("src/bin/main.rs", "**/bin"));
    assert!(glob_match("anything", "**"));
    assert!(glob_match("src/x", "src/**"));
    assert!(glob_match("a/b/c", "a/**/b/**/c"));
    assert!(glob_match("a/x/y/b/c", "a/**/b/**/c"));
}

#[test]
fn glob_single_star_stays_in_one_segment() {
    assert!(glob_match("src/lib.rs", "src/*.rs"));
    assert!(!glob_match("src/a/lib.rs", "src/*.rs"));
    assert!(glob_match("src/a/lib.rs", "src/*/lib.rs"));
    assert!(!glob_match("src/lib.rs", "src/*/lib.rs"));
}

#[test]
fn glob_extension_only() {
    assert!(glob_match("Cargo.toml", "*.toml"));
    assert!(glob_match("sub/Cargo.toml", "*.toml"));
    assert!(!glob_match("Cargo.lock", "*.toml"));
}

#[test]
fn glob_plain_text_is_contained() {
    assert!(glob_match("src/lib.rs", "lib"));
    assert!(!glob_match("src/lib.rs", "main"));
    assert!(glob_match("src/lib.rs", ""));
    assert!(!glob_match("", "a"));
}

#[test]
fn pattern_filter_is_optional() {
    assert!(matches_pattern("x", None));
    assert!(!matches_pattern("x", Some("y")));
}

#[test]
fn filter_keeps_matching_positions_in_order() {
    let paths = vec![
        "Cargo.toml".to_string(),
        "src".to_string(),
        "src/lib.rs".to_string(),
        "src/a/b.rs".to_string(),
    ];
    assert_eq!(filter_paths(&paths, Some("src/**/*.rs")), vec![2, 3]);
    assert_eq!(filter_paths(&paths, Some("*.toml")), vec![0]);
    assert_eq!(filter_paths(&paths, None), vec![0, 1, 2, 3]);
}

#[test]
fn config_defaults_for_home() {
    let c = LcrioConfig::default_for_home(Some("/home/u"));
    assert_eq!(c.panamax_root, "/home/u/crates.io/full");
    assert_eq!(c.cache_dir, "/home/u/.cache/lcrio");
    assert_eq!(c.search_limit, 20);
    assert_eq!(c.index_root(), "/home/u/crates.io/full/crates.io-index");
    assert_eq!(c.crates_root(), "/home/u/crates.io/full/crates");
    let t = LcrioConfig::default_for_home(None);
    assert_eq!(t.panamax_root, "/tmp/crates.io/full");
}

#[test]
fn crate_root_path_layout() {
    assert_eq!(crate_root_path("/c", "serde", "1.0.0"), "/c/unpacked/serde/1.0.0/serde-1.0.0");
}

#[test]
fn unpack_plan_and_decisions() {
    let plan = unpack_plan("/m/crates", "/c", "serde", "1.0.0");
    assert_eq!(plan.dest, "/c/unpacked/serde/1.0.0");
    assert_eq!(plan.inner_dir, "/c/unpacked/serde/1.0.0/serde-1.0.0");
    assert_eq!(plan.marker, "/c/unpacked/serde/1.0.0/serde-1.0.0/Cargo.toml");
    assert_eq!(plan.crate_file, "/m/crates/se/rd/serde/1.0.0/serde-1.0.0.crate");
    match unpack_decide(&plan, true, false) {
        UnpackStep::Cached(r) => {
            assert_eq!(r.path, plan.inner_dir);
            assert!(r.was_cached);
        }
        _ => panic!("expected cached"),
    }
    match unpack_decide(&plan, false, false) {
        UnpackStep::Fail(e) => assert_eq!(
            e.message(),
            "crate file not found: serde-1.0.0.crate (expected at /m/crates/se/rd/serde/1.0.0/serde-1.0.0.crate)"
        ),
        _ => panic!("expected failure"),
    }
    assert!(matches!(unpack_decide(&plan, false, true), UnpackStep::Extract));
    let r = unpack_finish(&plan, false, Some("/c/other".to_string()));
    match r {
        Ok(r) => {
            assert_eq!(r.path, "/c/other");
            assert!(!r.was_cached);
        }
        Err(_) => panic!("expected a directory"),
    }
    match unpack_finish(&plan, false, None) {
        Err(e) => assert_eq!(
            e.message(),
            "extraction succeeded but inner directory not found at /c/unpacked/serde/1.0.0/serde-1.0.0"
        ),
        Ok(_) => panic!("expected an error"),
    }
}

#[test]
fn cargo_source_lookup() {
    let d = cargo_source_dir("/reg/src", "anyhow", "1.0.0");
    assert_eq!(d, "/reg/src/anyhow-1.0.0");
    match cargo_source_path(d.clone(), false) {
        Err(e) => {
            assert!(matches!(e, UnpackError::SourceMissing { .. }));
            assert_eq!(
                e.message(),
                "source not found at /reg/src/anyhow-1.0.0 \u{2014} try running `cargo fetch` in your project"
            );
        }
        Ok(_) => panic!("expected an error"),
    }
    match cargo_source_path(d, true) {
        Ok(r) => assert!(r.was_cached),
        Err(_) => panic!("expected the directory"),
    }
    assert_eq!(unpacked_dir("/c"), "/c/unpacked");
}

fn pkg(name: &str, source: Option<&str>) -> LockPackage {
    LockPackage { name: name.to_string(), version: "1.0.0".to_string(), source: source.map(|s| s.to_string()) }
}

#[test]
fn registry_packages_only() {
    let pkgs = vec![
        pkg("a", Some("registry+https://github.com/rust-lang/crates.io-index")),
        pkg("local", None),
        pkg("g", Some("git+https://example.com/x")),
        pkg("b", Some("registry+sparse")),
    ];
    let names: Vec<String> = registry_packages(pkgs).into_iter().map(|p| p.name).collect();
    assert_eq!(names, vec!["a".to_string(), "b".to_string()]);
}

#[test]
fn workspace_names_sorted_unique() {
    let pkgs = vec![pkg("serde", None), pkg("anyhow", None), pkg("serde", None)];
    assert_eq!(workspace_crate_names(&pkgs), vec!["anyhow".to_string(), "serde".to_string()]);
}

#[test]
fn files_must_stay_inside_the_crate_root() {
    assert!(check_within_root("/c/x-1.0", "/c/x-1.0/src/lib.rs", "src/lib.rs").is_ok());
    assert!(check_within_root("/c/x-1.0", "/c/x-1.0", ".").is_ok());
    match check_within_root("/c/x-1.0", "/c/x-1.0b/lib.rs", "../x-1.0b/lib.rs") {
        Err(e) => {
            assert!(matches!(e, BrowseError::PathTraversal { .. }));
            assert_eq!(e.message(), "path traversal detected: ../x-1.0b/lib.rs");
        }
        Ok(_) => panic!("expected a traversal error"),
    }
    assert_eq!(file_path("/c/x-1.0", "src/lib.rs"), "/c/x-1.0/src/lib.rs");
}

#[test]
fn missing_crate_dir_is_reported() {
    assert!(check_crate_dir("/c/x", true).is_ok());
    match check_crate_dir("/c/x", false) {
        Err(e) => assert_eq!(e.message(), "crate directory does not exist: /c/x"),
        Ok(_) => panic!("expected an error"),
    }
}

#[test]
fn lock_search_walks_up_to_the_root() {
    let mut s = find_cargo_lock("/a/b");
    assert_eq!(s.candidate(), "/a/b/Cargo.lock");
    assert!(matches!(s.step(false), LockStep::Up));
    assert_eq!(s.dir, "/a");
    assert!(matches!(s.step(false), LockStep::Up));
    assert_eq!(s.dir, "/");
    assert_eq!(s.candidate(), "/Cargo.lock");
    assert!(matches!(s.step(false), LockStep::NotFound));
    let mut t = find_cargo_lock("/w");
    match t.step(true) {
        LockStep::Found(p) => assert_eq!(p, "/w/Cargo.lock"),
        _ => panic!("expected the lock file"),
    }
}
