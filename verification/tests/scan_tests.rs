use video::scan::scan_entries;

fn entries(list: &[(&str, bool)]) -> Vec<(String, bool)> {
    let mut v: Vec<(String, bool)> = Vec::new();
    for (path, is_file) in list {
        v.push((path.to_string(), *is_file));
    }
    v
}

fn paths(v: &Vec<String>) -> Vec<&str> {
    let mut out: Vec<&str> = Vec::new();
    for s in v {
        out.push(s.as_str());
    }
    out
}

#[test]
fn mixed_extensions_sorted() {
    let e = entries(&[("a.mp4", true), ("b.MP4", true), ("c.txt", true)]);
    let r = scan_entries(&e, "", "mp4");
    assert_eq!(paths(&r), vec!["a.mp4", "b.MP4"]);
}

#[test]
fn empty_prefix_matches_every_name() {
    let e = entries(&[("a.mp4", true), ("b.MP4", true), ("c.txt", true), ("nota.mp4", true)]);
    let r = scan_entries(&e, "", "mp4");
    assert_eq!(paths(&r), vec!["a.mp4", "b.MP4", "nota.mp4"]);
}

#[test]
fn no_match_is_empty_not_error() {
    let e = entries(&[("a.mp4", true), ("b.mp4", true)]);
    let r = scan_entries(&e, "zzz", "mp4");
    assert!(r.is_empty());
}

#[test]
fn extension_match_is_case_insensitive_both_ways() {
    let e = entries(&[("a.mp4", true), ("b.MP4", true)]);
    let r = scan_entries(&e, "", "MP4");
    assert_eq!(paths(&r), vec!["a.mp4", "b.MP4"]);
}

#[test]
fn prefix_match_is_case_sensitive() {
    let e = entries(&[("Clip.mp4", true), ("clip.mp4", true)]);
    let r = scan_entries(&e, "clip", "mp4");
    assert_eq!(paths(&r), vec!["clip.mp4"]);
}

#[test]
fn non_files_are_excluded() {
    let e = entries(&[("dir.mp4", false), ("a.mp4", true)]);
    let r = scan_entries(&e, "", "mp4");
    assert_eq!(paths(&r), vec!["a.mp4"]);
}

#[test]
fn order_is_byte_lexicographic() {
    let e = entries(&[("b.mp4", true), ("a.mp4", true), ("B.mp4", true)]);
    let r = scan_entries(&e, "", "mp4");
    assert_eq!(paths(&r), vec!["B.mp4", "a.mp4", "b.mp4"]);
}

#[test]
fn prefix_applies_to_file_name_not_path() {
    let e = entries(&[("/tmp/vid/clip.mp4", true), ("/tmp/vid/other.mp4", true)]);
    let r = scan_entries(&e, "clip", "mp4");
    assert_eq!(paths(&r), vec!["/tmp/vid/clip.mp4"]);
}

#[test]
fn dotfile_has_no_extension() {
    let e = entries(&[(".mp4", true), ("a.mp4", true)]);
    let r = scan_entries(&e, "", "mp4");
    assert_eq!(paths(&r), vec!["a.mp4"]);
}

#[test]
fn trailing_dot_is_the_empty_extension() {
    let e = entries(&[("clip.", true), ("clip.mp4", true)]);
    let r = scan_entries(&e, "", "");
    assert_eq!(paths(&r), vec!["clip."]);
}

#[test]
fn duplicate_paths_are_kept() {
    let e = entries(&[("a.mp4", true), ("a.mp4", true)]);
    let r = scan_entries(&e, "", "mp4");
    assert_eq!(paths(&r), vec!["a.mp4", "a.mp4"]);
}
