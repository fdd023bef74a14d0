use gshell::tab::{expand_path_prefix, path_candidates, path_target, CompletionCandidate};

/// A listing: each name with whether it is a directory.
fn listing(entries: &[(&str, bool)]) -> Vec<(String, bool)> {
    entries.iter().map(|(n, d)| (n.to_string(), *d)).collect()
}

/// The completions of `prefix` typed in a working directory holding
/// `entries` (the prefix names no directory there).
fn in_cwd(prefix: &str, entries: &[(&str, bool)]) -> Vec<CompletionCandidate> {
    let (dir, _) = path_target(prefix, None, false);
    assert_eq!(dir, ".");
    path_candidates(prefix, None, false, &listing(entries))
}

#[test]
fn test_complete_path_empty_prefix_lists_cwd() {
    assert_eq!(path_target("", None, true), (".".to_string(), String::new()));
    let results = path_candidates("", None, true, &listing(&[("Cargo.toml", false), ("src", true)]));
    assert!(!results.is_empty());
}

#[test]
fn test_complete_path_filters_by_prefix() {
    let results = in_cwd("al", &[("alpha", true), ("bravo", true), ("alpha.txt", false)]);
    assert!(results.iter().any(|c| c.replacement.starts_with("alpha")));
}

#[test]
fn test_complete_path_single_char_prefix() {
    let results = in_cwd("a", &[("aur", true), ("build", true)]);
    assert_eq!(results.len(), 1);
    assert!(results[0].replacement.starts_with("aur"));
}

#[test]
fn test_complete_path_directory_gets_slash() {
    let results = in_cwd("my", &[("mydir.txt", false), ("mydir", true)]);
    let dir_result = results.iter().find(|c| c.replacement.ends_with('/'));
    assert!(dir_result.is_some());
    assert!(dir_result.unwrap().replacement.starts_with("mydir"));
    let file_result = results.iter().find(|c| c.replacement == "mydir.txt");
    assert!(file_result.is_some());
}

#[test]
fn test_complete_path_nonexistent_prefix_falls_back_to_cwd() {
    let results = in_cwd("xyz", &[("xyz_item", true)]);
    assert_eq!(results.len(), 1);
    assert!(results[0].replacement.starts_with("xyz_item"));
}

#[test]
fn test_complete_path_parent_empty_string_fix() {
    let results = in_cwd("test", &[("test_entry", true)]);
    assert_eq!(results.len(), 1);
    assert!(results[0].replacement.starts_with("test_entry"));
}

#[test]
fn test_complete_path_trailing_slash_lists_contents() {
    assert_eq!(path_target("subdir/", None, true), ("subdir/".to_string(), String::new()));
    let results = path_candidates("subdir/", None, true, &listing(&[("file.txt", false)]));
    assert_eq!(results.len(), 1);
    assert!(results[0].replacement.contains("file.txt"));
    assert_eq!(results[0].replacement, "subdir/file.txt");
}

#[test]
fn test_complete_path_directories_before_files() {
    let results = in_cwd("a", &[("afile.txt", false), ("adir", true)]);
    assert!(!results.is_empty());
    let first_dir = results.iter().position(|c| c.replacement.ends_with('/'));
    let first_file = results.iter().position(|c| !c.replacement.ends_with('/'));
    if let (Some(d), Some(f)) = (first_dir, first_file) {
        assert!(d < f, "directories should come before files");
    }
}

#[test]
fn test_complete_path_no_match_empty_result() {
    let results = in_cwd("zzz", &[("abc", true)]);
    assert!(results.is_empty());
}

#[test]
fn home_is_expanded_and_the_prefix_split_at_its_last_slash() {
    assert_eq!(expand_path_prefix("~/src/ma", Some("/home/u")), "/home/u/src/ma");
    assert_eq!(expand_path_prefix("~", Some("/home/u")), "/home/u");
    assert_eq!(expand_path_prefix("~/x", None), "~/x");
    assert_eq!(expand_path_prefix("~user", Some("/home/u")), "~user");
    assert_eq!(path_target("~/src/ma", Some("/home/u"), false), ("/home/u/src".to_string(), "ma".to_string()));
    assert_eq!(path_target("/us", None, false), ("/".to_string(), "us".to_string()));
    assert_eq!(path_target("./x", None, false), (".".to_string(), "x".to_string()));
    assert_eq!(path_target("src", None, true), ("src".to_string(), String::new()));
}

#[test]
fn candidates_spell_paths_sort_and_drop_repeats() {
    let results = path_candidates(
        "./M",
        None,
        false,
        &listing(&[("main.rs", false), ("Makefile", false), ("Mod", true), ("Makefile", false)]),
    );
    let reps: Vec<&str> = results.iter().map(|c| c.replacement.as_str()).collect();
    assert_eq!(reps, vec!["./Mod/", "./Makefile"]);
    assert_eq!(results[0].display, "./Mod/");
    assert_eq!(results[0].description, "directory");
    assert_eq!(results[1].description, "file");
    // Without an upper-case letter, case does not matter.
    let results = in_cwd("ma", &[("main.rs", false), ("Makefile", false)]);
    let reps: Vec<&str> = results.iter().map(|c| c.replacement.as_str()).collect();
    assert_eq!(reps, vec!["Makefile", "main.rs"]);
    // Inside a directory named in full, the path is joined.
    let results = path_candidates("/us", None, false, &listing(&[("usr", true), ("bin", true)]));
    assert_eq!(results[0].replacement, "/usr/");
}
