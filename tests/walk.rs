use amc::walk::{relative_path, CandidateEntry, EntryKind, FileEntry, FileWalker};

const ROOT: &str = "/tmp/scan";

fn file(rel: &str) -> CandidateEntry {
    CandidateEntry { path: format!("{}/{}", ROOT, rel), kind: EntryKind::File }
}

fn dir(rel: &str) -> CandidateEntry {
    CandidateEntry { path: format!("{}/{}", ROOT, rel), kind: EntryKind::Directory }
}

fn strings(v: &[&str]) -> Vec<String> {
    v.iter().map(|s| s.to_string()).collect()
}

/// The nodes of a small project tree, as a traversal visits them.
fn project_tree() -> Vec<CandidateEntry> {
    vec![
        CandidateEntry { path: ROOT.to_string(), kind: EntryKind::Directory },
        file(".gitignore"),
        file("test1.rs"),
        file("test2.rs"),
        file("test3.txt"),
        dir("subdir"),
        file("subdir/test4.rs"),
        file("test5"),
    ]
}

fn relative_paths(files: &[FileEntry]) -> Vec<String> {
    files.iter().map(|f| f.relative_path.clone()).collect()
}

#[test]
fn test_walk_with_extensions() {
    let walker = FileWalker::new(strings(&["rs"]), vec![]);
    let files = walker.select(ROOT, &project_tree());
    assert_eq!(files.len(), 3);
    for file in files {
        assert!(file.absolute_path.ends_with(".rs"));
    }
}

#[test]
fn test_relative_paths() {
    let walker = FileWalker::new(strings(&["rs"]), vec![]);
    let files = walker.select(ROOT, &project_tree());
    assert!(!files.is_empty());
    for file in files {
        assert!(!file.relative_path.starts_with('/'));
        assert!(file.absolute_path.starts_with('/'));
        assert_eq!(format!("{}/{}", ROOT, file.relative_path), file.absolute_path);
    }
}

#[test]
fn test_exclude_config_file() {
    let mut tree = project_tree();
    tree.push(file(".amc.toml"));
    let walker = FileWalker::new(strings(&["toml"]), vec![]);
    let files = walker.select(ROOT, &tree);
    for file in &files {
        assert_ne!(file.relative_path, ".amc.toml");
    }
    assert!(files.is_empty());
}

#[test]
fn test_exclude_folders() {
    let tree = vec![
        file("src/main.rs"),
        file("src/lib.rs"),
        file("target/debug/app.rs"),
        file("target/release/app.rs"),
        file("docs/target/example.rs"),
        file("other/file.rs"),
    ];
    let walker = FileWalker::new(strings(&["rs"]), strings(&["target"]));
    let found = relative_paths(&walker.select(ROOT, &tree));
    assert!(found.contains(&"src/main.rs".to_string()));
    assert!(found.contains(&"src/lib.rs".to_string()));
    assert!(found.contains(&"other/file.rs".to_string()));
    assert!(!found.iter().any(|p| p.contains("target/debug")));
    assert!(!found.iter().any(|p| p.contains("target/release")));
    assert!(!found.contains(&"docs/target/example.rs".to_string()));
    assert_eq!(found.len(), 3);
}

#[test]
fn scenario_extension_filter_keeps_three_rust_files() {
    let tree = vec![file("a.rs"), file("b.rs"), file("c.txt"), dir("sub"), file("sub/d.rs"), file("e")];
    let walker = FileWalker::new(strings(&["rs"]), vec![]);
    let found = relative_paths(&walker.select(ROOT, &tree));
    assert_eq!(found, strings(&["a.rs", "b.rs", "sub/d.rs"]));
}

#[test]
fn scenario_nested_excluded_folder() {
    let tree = vec![file("src/main.rs"), file("target/debug/app.rs"), file("docs/target/example.rs")];
    let walker = FileWalker::new(strings(&["rs"]), strings(&["target"]));
    let found = relative_paths(&walker.select(ROOT, &tree));
    assert_eq!(found, strings(&["src/main.rs"]));
}

#[test]
fn folder_exclusion_at_depth_and_whole_names() {
    let tree = vec![
        file("target/debug/a.rs"),
        file("target/release/b.rs"),
        file("x/y/target/z/c.rs"),
        file("targetx/d.rs"),
        file("x/target.rs"),
    ];
    let walker = FileWalker::new(strings(&["rs"]), strings(&["target"]));
    let found = relative_paths(&walker.select(ROOT, &tree));
    assert_eq!(found, strings(&["targetx/d.rs", "x/target.rs"]));
}

#[test]
fn excluded_folder_above_the_root_does_not_count() {
    let tree = vec![CandidateEntry { path: "/w/target/proj/a.rs".to_string(), kind: EntryKind::File }];
    let walker = FileWalker::new(strings(&["rs"]), strings(&["target"]));
    let found = walker.select("/w/target/proj", &tree);
    assert_eq!(relative_paths(&found), strings(&["a.rs"]));
}

#[test]
fn one_leading_dot_is_stripped_and_case_matters() {
    let tree = vec![file("a.rs"), file("b.RS"), file("c.md"), file("d.tar.gz")];
    let walker = FileWalker::new(strings(&[".rs", "..md", "gz"]), vec![]);
    let found = relative_paths(&walker.select(ROOT, &tree));
    assert_eq!(found, strings(&["a.rs", "d.tar.gz"]));
}

#[test]
fn dot_files_without_extension_never_match() {
    let tree = vec![file(".rs"), file(".hidden.rs"), file("noext")];
    let walker = FileWalker::new(strings(&["rs"]), vec![]);
    let found = relative_paths(&walker.select(ROOT, &tree));
    assert_eq!(found, strings(&[".hidden.rs"]));
}

#[test]
fn empty_extension_set_matches_nothing() {
    let walker = FileWalker::new(vec![], vec![]);
    assert!(walker.select(ROOT, &project_tree()).is_empty());
}

#[test]
fn only_regular_files_are_collected() {
    let tree = vec![
        CandidateEntry { path: format!("{}/x.rs", ROOT), kind: EntryKind::Directory },
        CandidateEntry { path: format!("{}/y.rs", ROOT), kind: EntryKind::Other },
        file("z.rs"),
    ];
    let walker = FileWalker::new(strings(&["rs"]), vec![]);
    assert_eq!(relative_paths(&walker.select(ROOT, &tree)), strings(&["z.rs"]));
}

#[test]
fn visit_order_does_not_change_the_set() {
    let walker = FileWalker::new(strings(&["rs"]), vec![]);
    let mut tree = project_tree();
    let mut first = relative_paths(&walker.select(ROOT, &tree));
    tree.reverse();
    let mut second = relative_paths(&walker.select(ROOT, &tree));
    first.sort();
    second.sort();
    assert_eq!(first, second);
    assert_eq!(relative_paths(&walker.select(ROOT, &project_tree())).len(), 3);
}

#[test]
fn relative_path_falls_back_to_absolute() {
    assert_eq!(relative_path("/a/b", "/a/b/c/d.rs"), "c/d.rs");
    assert_eq!(relative_path("/a/b/", "/a/b//c/d.rs"), "c/d.rs");
    assert_eq!(relative_path("/a/b", "/a/bc/d.rs"), "/a/bc/d.rs");
    assert_eq!(relative_path("/a/b", "/x/y.rs"), "/x/y.rs");
    assert_eq!(relative_path("/", "/x/y.rs"), "x/y.rs");
    assert_eq!(relative_path("/a/b", "/a/b"), "");
}

#[test]
fn single_filters() {
    let walker = FileWalker::new(strings(&["rs"]), strings(&["target", "node_modules"]));
    assert!(walker.is_valid_extension("/p/q/main.rs"));
    assert!(!walker.is_valid_extension("/p/q/main.rsx"));
    assert!(!walker.is_valid_extension("/p/q/.amc.toml"));
    assert!(!walker.is_valid_extension("/"));
    assert!(walker.is_excluded_directory("node_modules/x/y.rs"));
    assert!(walker.is_excluded_directory("a/target/y.rs"));
    assert!(!walker.is_excluded_directory("a/targets/y.rs"));
    assert!(!walker.is_excluded_directory("a/b/target"));
    let root = "/p";
    let c = CandidateEntry { path: "/p/target/x.rs".to_string(), kind: EntryKind::File };
    assert!(!walker.accepts(root, &c));
    let d = CandidateEntry { path: "/p/src/x.rs".to_string(), kind: EntryKind::File };
    assert!(walker.accepts(root, &d));
}

#[test]
fn extension_with_two_dots_keeps_one() {
    let tree = vec![file("a.rs"), file("b..rs")];
    let walker = FileWalker::new(strings(&["..rs"]), vec![]);
    assert_eq!(relative_paths(&walker.select(ROOT, &tree)), Vec::<String>::new());
}
