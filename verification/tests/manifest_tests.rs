use video::manifest::{encoder_arg_list, manifest_file_path, render_manifest};
use video::scan::scan_entries;

fn string_vec(list: &[&str]) -> Vec<String> {
    let mut v: Vec<String> = Vec::new();
    for s in list {
        v.push(s.to_string());
    }
    v
}

#[test]
fn manifest_is_exactly_one_quoted_line_per_path() {
    let files = string_vec(&["x", "y"]);
    let m = render_manifest(&files);
    assert_eq!(m, "file 'x'\nfile 'y'\n");
}

#[test]
fn manifest_of_empty_list_is_empty() {
    let files: Vec<String> = Vec::new();
    let m = render_manifest(&files);
    assert_eq!(m, "");
}

#[test]
fn manifest_keeps_the_given_order() {
    let files = string_vec(&["b.mp4", "a.mp4"]);
    let m = render_manifest(&files);
    assert_eq!(m, "file 'b.mp4'\nfile 'a.mp4'\n");
}

#[test]
fn rescan_of_identical_contents_renders_identical_bytes() {
    let mut e: Vec<(String, bool)> = Vec::new();
    e.push(("/tmp/vid/clip_002.mp4".to_string(), true));
    e.push(("/tmp/vid/clip_001.mp4".to_string(), true));
    e.push(("/tmp/vid/notes.txt".to_string(), true));
    let first = render_manifest(&scan_entries(&e, "", "mp4"));
    let second = render_manifest(&scan_entries(&e, "", "mp4"));
    assert_eq!(first, second);
}

#[test]
fn clip_prefix_scenario_selects_and_renders_both_clips() {
    let mut e: Vec<(String, bool)> = Vec::new();
    e.push(("/tmp/vid/clip_001.mp4".to_string(), true));
    e.push(("/tmp/vid/clip_002.mp4".to_string(), true));
    e.push(("/tmp/vid/other.mp4".to_string(), true));
    let files = scan_entries(&e, "clip_", "mp4");
    let mut expect: Vec<&str> = Vec::new();
    expect.push("/tmp/vid/clip_001.mp4");
    expect.push("/tmp/vid/clip_002.mp4");
    let got: Vec<&str> = files.iter().map(|s| s.as_str()).collect();
    assert_eq!(got, expect);
    let m = render_manifest(&files);
    assert_eq!(m, "file '/tmp/vid/clip_001.mp4'\nfile '/tmp/vid/clip_002.mp4'\n");
}

#[test]
fn encoder_is_invoked_with_the_fixed_flags() {
    let manifest = manifest_file_path();
    assert_eq!(manifest, "/tmp/file_list.txt");
    let args = encoder_arg_list(&manifest, "/tmp/out.mp4");
    let got: Vec<&str> = args.iter().map(|s| s.as_str()).collect();
    let expect = vec![
        "-f",
        "concat",
        "-safe",
        "0",
        "-i",
        "/tmp/file_list.txt",
        "-c",
        "copy",
        "/tmp/out.mp4",
    ];
    assert_eq!(got, expect);
}
