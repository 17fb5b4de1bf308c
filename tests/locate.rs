use std::path::Path;
use yoink::{
    find_binaries, is_probable_binary_candidate, path_has_component, rank_by_path_length,
    FoundFile, PlatformProfile, YoinkError,
};

const ROOT: &str = "/scratch/extract";

fn found(path: &Path) -> FoundFile {
    FoundFile {
        path: path.to_string_lossy().into_owned(),
        name: path.file_name().and_then(|n| n.to_str()).map(|n| n.to_string()),
        components: path
            .components()
            .map(|c| c.as_os_str().to_string_lossy().into_owned())
            .collect(),
    }
}

fn tree(relative: &[&str]) -> Vec<FoundFile> {
    relative
        .iter()
        .map(|r| found(&Path::new(ROOT).join(r)))
        .collect()
}

fn unix() -> PlatformProfile {
    PlatformProfile::for_host("linux", "x86_64")
}

fn path_of(files: &[FoundFile], i: usize) -> String {
    files[i].path.clone()
}

fn rooted(relative: &str) -> String {
    Path::new(ROOT).join(relative).to_string_lossy().into_owned()
}

#[test]
fn find_binaries_prefers_shortest_exact() {
    let files = tree(&["bin/tool", "bin/helper", "docs/readme.md", "tool"]);
    let found = find_binaries(&files, "tool", &unix()).expect("find binaries");
    assert_eq!(path_of(&files, found.primary), rooted("tool"));
    let extras: Vec<String> = found.extras.iter().map(|&i| path_of(&files, i)).collect();
    assert!(extras.contains(&rooted("bin/tool")));
    assert!(extras.contains(&rooted("bin/helper")));
}

#[test]
fn find_binaries_prefers_bin_when_no_exact() {
    let files = tree(&["alt/tool", "bin/run"]);
    let found = find_binaries(&files, "yoink", &unix()).expect("find binaries");
    assert_eq!(path_of(&files, found.primary), rooted("bin/run"));
}

#[test]
fn find_binaries_prefers_shortest_probable() {
    let files = tree(&["longer/path/tool", "a/run"]);
    let found = find_binaries(&files, "yoink", &unix()).expect("find binaries");
    assert_eq!(path_of(&files, found.primary), rooted("a/run"));
}

#[test]
fn find_binaries_single_candidate() {
    let files = tree(&["only"]);
    let found = find_binaries(&files, "yoink", &unix()).expect("find binaries");
    assert_eq!(path_of(&files, found.primary), rooted("only"));
    assert!(found.extras.is_empty());
}

#[test]
fn find_binaries_falls_back_to_single_candidate() {
    let files = tree(&["notes.txt"]);
    let found = find_binaries(&files, "yoink", &unix()).expect("find binaries");
    assert_eq!(path_of(&files, found.primary), rooted("notes.txt"));
    assert!(found.extras.is_empty());
}

#[test]
fn find_binaries_errors_without_candidates() {
    let files: Vec<FoundFile> = Vec::new();
    assert!(find_binaries(&files, "yoink", &unix()).is_err());
}

#[test]
fn empty_tree_fails_with_binary_not_found() {
    let files: Vec<FoundFile> = Vec::new();
    assert_eq!(
        find_binaries(&files, "yoink", &unix()).err(),
        Some(YoinkError::BinaryNotFound)
    );
    let docs = tree(&["README.md", "LICENSE"]);
    assert_eq!(
        find_binaries(&docs, "yoink", &unix()).err(),
        Some(YoinkError::BinaryNotFound)
    );
}

#[test]
fn tool_next_to_readme_is_primary_without_extras() {
    let files = tree(&["tool", "README.md"]);
    let found = find_binaries(&files, "tool", &unix()).expect("find binaries");
    assert_eq!(path_of(&files, found.primary), rooted("tool"));
    assert!(found.extras.is_empty());
}

#[test]
fn bin_component_decides_between_same_named_files() {
    for order in [["bin/tool", "alt/tool"], ["alt/tool", "bin/tool"]] {
        let files = tree(&order);
        let found = find_binaries(&files, "yoink", &unix()).expect("find binaries");
        assert_eq!(path_of(&files, found.primary), rooted("bin/tool"));
        let extras: Vec<String> = found.extras.iter().map(|&i| path_of(&files, i)).collect();
        assert_eq!(extras, vec![rooted("alt/tool")]);
    }
}

#[test]
fn exact_match_ignores_case_and_windows_suffix() {
    let files = tree(&["a/TOOL", "helper"]);
    let found = find_binaries(&files, "tool", &unix()).expect("find binaries");
    assert_eq!(path_of(&files, found.primary), rooted("a/TOOL"));

    let windows = PlatformProfile::for_host("windows", "x86_64");
    let files = tree(&["bin/tool.exe", "tool.bat"]);
    let found = find_binaries(&files, "tool", &windows).expect("find binaries");
    assert_eq!(path_of(&files, found.primary), rooted("bin/tool.exe"));
}

#[test]
fn extras_are_ordered_by_path_length() {
    let files = tree(&["pkg/bin/tool", "x/abc", "tool", "pkg/zz", "pkg/yy"]);
    let found = find_binaries(&files, "tool", &unix()).expect("find binaries");
    assert_eq!(path_of(&files, found.primary), rooted("tool"));
    let extras: Vec<String> = found.extras.iter().map(|&i| path_of(&files, i)).collect();
    assert_eq!(
        extras,
        vec![
            rooted("x/abc"),
            rooted("pkg/zz"),
            rooted("pkg/yy"),
            rooted("pkg/bin/tool")
        ]
    );
}

#[test]
fn several_bin_files_fall_back_to_shortest() {
    let files = tree(&["bin/longname", "bin/ab", "lib/x"]);
    let found = find_binaries(&files, "yoink", &unix()).expect("find binaries");
    assert_eq!(path_of(&files, found.primary), rooted("lib/x"));
}

#[test]
fn rank_by_path_length_is_stable() {
    let files = tree(&["ccc", "a", "bb", "d", "ee"]);
    let ranked = rank_by_path_length(&files, &vec![0, 1, 2, 3, 4]);
    assert_eq!(ranked, vec![1, 3, 2, 4, 0]);
}

#[test]
fn probable_binary_filters_docs_and_extensions() {
    assert!(!is_probable_binary_candidate(&found(Path::new("README.md"))));
    assert!(!is_probable_binary_candidate(&found(Path::new("docs/tool"))));
    assert!(!is_probable_binary_candidate(&found(Path::new("share/tool"))));
    assert!(is_probable_binary_candidate(&found(Path::new("bin/tool"))));
}

#[test]
fn probable_binary_handles_missing_filename() {
    assert!(!is_probable_binary_candidate(&found(Path::new(""))));
}

#[test]
fn probable_binary_filters_extensions() {
    assert!(!is_probable_binary_candidate(&found(Path::new("notes.json"))));
}

#[test]
fn probable_binary_filter_details() {
    assert!(!is_probable_binary_candidate(&found(Path::new(".hidden"))));
    assert!(!is_probable_binary_candidate(&found(Path::new("License-MIT"))));
    assert!(!is_probable_binary_candidate(&found(Path::new("CHANGELOG"))));
    assert!(!is_probable_binary_candidate(&found(Path::new("man/man1/tool.1"))));
    assert!(!is_probable_binary_candidate(&found(Path::new("Completions/tool"))));
    assert!(!is_probable_binary_candidate(&found(Path::new("tool.SHA256"))));
    assert!(!is_probable_binary_candidate(&found(Path::new("config.YML"))));
    assert!(is_probable_binary_candidate(&found(Path::new("tool.sh"))));
    assert!(is_probable_binary_candidate(&found(Path::new("manual/tool"))));
    assert!(!is_probable_binary_candidate(&found(Path::new("tool-1.2"))));
    assert!(is_probable_binary_candidate(&found(Path::new("tool-1.2-linux"))));
}

#[test]
fn path_has_component_handles_case() {
    let path = Path::new("Foo").join("Bin").join("tool");
    let file = found(&path);
    assert!(path_has_component(&file, "bin"));
    assert!(!path_has_component(&file, "share"));
    assert!(!path_has_component(&file, "bi"));
}

#[test]
fn doc_helpers_expect_lower_case_text() {
    assert!(yoink::is_doc_name_lowered("readme.md"));
    assert!(!yoink::is_doc_name_lowered("README.md"));
    assert!(yoink::is_doc_name_lowered(".env"));
    assert!(!yoink::is_doc_name_lowered("tool"));
    assert!(yoink::is_doc_extension_lowered("sha512"));
    assert!(yoink::is_doc_extension_lowered("7"));
    assert!(!yoink::is_doc_extension_lowered("MD"));
    assert!(!yoink::is_doc_extension_lowered("sh"));
}

#[test]
fn locate_keyed_decides_on_given_keys_and_flags() {
    let files = tree(&["BIN/Tool", "alt/x", "docs/y"]);
    let keys = vec!["tool".to_string(), "x".to_string(), "y".to_string()];
    let flags = vec![true, true, false];
    let found = yoink::locate_keyed(&files, &keys, &flags, "tool", "tool").expect("locate");
    assert_eq!(found.primary, 0);
    assert_eq!(found.extras, vec![1]);

    let upper = vec!["TOOL".to_string(), "X".to_string(), "Y".to_string()];
    let found = yoink::locate_keyed(&files, &upper, &flags, "tool", "tool").expect("locate");
    assert_eq!(found.primary, 0);
    assert_eq!(found.extras, vec![1]);

    let none = vec![false, false, false];
    assert_eq!(
        yoink::locate_keyed(&files, &keys, &none, "other", "other").err(),
        Some(YoinkError::BinaryNotFound)
    );
}
