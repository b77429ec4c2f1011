use lcrio::prefix::{crate_file_path, crate_file_path_flat, index_path, prefix};

#[test]
fn test_prefix_lengths() {
    assert_eq!(prefix("a"), "1");
    assert_eq!(prefix("ab"), "2");
    assert_eq!(prefix("tok"), "3/t");
    assert_eq!(prefix("serde"), "se/rd");
    assert_eq!(prefix("tokio"), "to/ki");
}

#[test]
fn prefix_of_empty_name_is_empty() {
    assert_eq!(prefix(""), "");
}

#[test]
fn prefix_lowercases() {
    assert_eq!(prefix("Serde"), "se/rd");
    assert_eq!(prefix("TOK"), "3/t");
    assert_eq!(prefix("AB"), "2");
}

#[test]
fn prefix_counts_characters() {
    assert_eq!(prefix("\u{e9}"), "1");
    assert_eq!(prefix("a\u{e9}b"), "3/a");
    assert_eq!(prefix("\u{e9}\u{e9}\u{e9}\u{e9}x"), "\u{e9}\u{e9}/\u{e9}\u{e9}");
}

#[test]
fn index_path_layout() {
    assert_eq!(index_path("/m/crates.io-index", "Serde"), "/m/crates.io-index/se/rd/serde");
    assert_eq!(index_path("/m/idx/", "a"), "/m/idx/1/a");
    assert_eq!(index_path("idx", "tok"), "idx/3/t/tok");
}

#[test]
fn crate_file_path_layout() {
    assert_eq!(
        crate_file_path("/m/crates", "Tokio", "1.0.0"),
        "/m/crates/to/ki/tokio/1.0.0/tokio-1.0.0.crate"
    );
}

#[test]
fn crate_file_path_flat_layout() {
    assert_eq!(crate_file_path_flat("/cache", "Serde", "1.0.1"), "/cache/Serde-1.0.1.crate");
}

#[test]
fn absolute_segment_replaces_base() {
    assert_eq!(lcrio::text::path_join("/base", "/abs"), "/abs");
    assert_eq!(lcrio::text::path_join("", "rel"), "rel");
    assert_eq!(lcrio::text::path_join("base", ""), "base/");
}
