use video::errors::Error;
use video::names::{ascii_case_insensitive_eq, extension, file_name, has_prefix};
use video::order::{sort_paths, str_lex_le};

#[test]
fn file_name_is_the_last_path_segment() {
    assert_eq!(file_name("/a/b/c.mp4"), "c.mp4");
    assert_eq!(file_name("c.mp4"), "c.mp4");
    assert_eq!(file_name("/a/b/"), "");
    assert_eq!(file_name(""), "");
}

#[test]
fn extension_is_after_the_last_dot() {
    assert_eq!(extension("c.mp4"), Some("mp4".to_string()));
    assert_eq!(extension("c.tar.gz"), Some("gz".to_string()));
    assert_eq!(extension("c."), Some("".to_string()));
    assert_eq!(extension("noext"), None);
    assert_eq!(extension(".gitignore"), None);
    assert_eq!(extension(""), None);
}

#[test]
fn case_folding_only_touches_ascii_letters() {
    assert!(ascii_case_insensitive_eq("MP4", "mp4"));
    assert!(ascii_case_insensitive_eq("Mp4", "mP4"));
    assert!(!ascii_case_insensitive_eq("mp4", "mp5"));
    assert!(!ascii_case_insensitive_eq("mp4", "mp40"));
    assert!(ascii_case_insensitive_eq("", ""));
}

#[test]
fn prefix_test_is_plain_starts_with() {
    assert!(has_prefix("clip_001.mp4", "clip_"));
    assert!(has_prefix("clip_001.mp4", ""));
    assert!(!has_prefix("clip_001.mp4", "clip_0012"));
    assert!(!has_prefix("clip", "clip_"));
}

#[test]
fn string_order_is_lexicographic() {
    assert!(str_lex_le("a", "b"));
    assert!(!str_lex_le("b", "a"));
    assert!(str_lex_le("a", "a"));
    assert!(str_lex_le("a", "ab"));
    assert!(!str_lex_le("ab", "a"));
    assert!(str_lex_le("B", "a"));
    assert!(str_lex_le("", "a"));
}

#[test]
fn sorting_orders_and_keeps_duplicates() {
    let mut v: Vec<String> = Vec::new();
    v.push("b".to_string());
    v.push("a".to_string());
    v.push("a".to_string());
    let r = sort_paths(v);
    let got: Vec<&str> = r.iter().map(|s| s.as_str()).collect();
    assert_eq!(got, vec!["a", "a", "b"]);
}

#[test]
fn error_variants_are_distinct_values() {
    assert_eq!(Error::FolderNotFound, Error::FolderNotFound);
    assert_ne!(Error::FolderNotFound, Error::AccessDenied);
    assert_ne!(Error::CreateOutputError, Error::WriteFileError);
    assert_ne!(Error::CommandError, Error::FileNotFound);
    let e = Error::CommandError;
    assert_eq!(e, e.clone());
}
