use code_manager::walk::{find_code_dir, is_code_dir, join_path, FsEntry, FsTree};
use code_manager::Lang;

fn file(name: &str) -> FsEntry {
    FsEntry { name: name.to_string(), tree: FsTree::File }
}

fn dir(name: &str, children: Vec<FsEntry>) -> FsEntry {
    FsEntry { name: name.to_string(), tree: FsTree::Dir(children) }
}

fn rust_exts() -> Vec<String> {
    Lang::Rust.extensions()
}

fn python_exts() -> Vec<String> {
    Lang::Python.extensions()
}

#[test]
fn join_path_inserts_separator() {
    assert_eq!(join_path("root", "proj"), "root/proj".to_string());
    assert_eq!(join_path("", "x"), "/x".to_string());
}

#[test]
fn project_with_matching_file_is_reported_once() {
    // root/proj/(main.rs, src/) scanned for rust without the marker demand
    let tree = FsTree::Dir(vec![dir("proj", vec![file("main.rs"), dir("src", vec![])])]);
    let found = find_code_dir("root", &tree, &rust_exts(), false);
    assert_eq!(found.len(), 1);
    assert_eq!(found[0].dir, "root/proj".to_string());
    assert_eq!(found[0].lang, Some(Lang::Rust));
    assert!(!found[0].with_git);
    assert_eq!(found[0].render(), "root/proj: Rust ".to_string());
}

#[test]
fn marked_project_reports_git() {
    // root/proj/(.git/, app.py) scanned for python with the marker demanded
    let tree = FsTree::Dir(vec![dir("proj", vec![dir(".git", vec![]), file("app.py")])]);
    let found = find_code_dir("root", &tree, &python_exts(), true);
    assert_eq!(found.len(), 1);
    assert_eq!(found[0].dir, "root/proj".to_string());
    assert_eq!(found[0].lang, Some(Lang::Python));
    assert!(found[0].with_git);
    assert_eq!(found[0].render(), "root/proj: Python Git".to_string());
}

#[test]
fn empty_tree_yields_nothing() {
    // root/empty/ holds no matching file anywhere
    let tree = FsTree::Dir(vec![dir("empty", vec![])]);
    let found = find_code_dir("root", &tree, &Lang::all_extensions(), false);
    assert_eq!(found.len(), 0);
}

#[test]
fn accepted_directory_is_not_descended_into() {
    // a matches, so a/b must not be reported although it matches too
    let tree = FsTree::Dir(vec![dir(
        "a",
        vec![file("x.rs"), dir("b", vec![file("y.rs")])],
    )]);
    let found = find_code_dir("root", &tree, &rust_exts(), false);
    assert_eq!(found.len(), 1);
    assert_eq!(found[0].dir, "root/a".to_string());
}

#[test]
fn unmarked_directory_is_skipped_but_recursed() {
    // a matches but has no marker; the marked a/b below it is still found
    let tree = FsTree::Dir(vec![dir(
        "a",
        vec![
            file("x.rs"),
            dir("b", vec![dir(".git", vec![]), file("y.rs")]),
        ],
    )]);
    let found = find_code_dir("root", &tree, &rust_exts(), true);
    assert_eq!(found.len(), 1);
    assert_eq!(found[0].dir, "root/a/b".to_string());
    assert!(found[0].with_git);
}

#[test]
fn last_matching_file_decides_the_language() {
    let tree = FsTree::Dir(vec![dir("p", vec![file("a.py"), file("b.rs")])]);
    let found = find_code_dir("root", &tree, &Lang::all_extensions(), false);
    assert_eq!(found.len(), 1);
    assert_eq!(found[0].lang, Some(Lang::Rust));

    let tree2 = FsTree::Dir(vec![dir("p", vec![file("b.rs"), file("a.py")])]);
    let found2 = find_code_dir("root", &tree2, &Lang::all_extensions(), false);
    assert_eq!(found2.len(), 1);
    assert_eq!(found2[0].lang, Some(Lang::Python));
}

#[test]
fn results_come_in_traversal_order() {
    let tree = FsTree::Dir(vec![
        dir("a", vec![file("x.rs")]),
        dir("m", vec![dir("inner", vec![file("y.py")])]),
        dir("z", vec![file("w.go")]),
    ]);
    let found = find_code_dir("root", &tree, &Lang::all_extensions(), false);
    let dirs: Vec<String> = found.iter().map(|c| c.dir.clone()).collect();
    assert_eq!(
        dirs,
        vec![
            "root/a".to_string(),
            "root/m/inner".to_string(),
            "root/z".to_string()
        ]
    );
}

#[test]
fn matching_directory_names_do_not_count() {
    // only files match extensions; a directory named like a source file does not
    let tree = FsTree::Dir(vec![dir("p", vec![dir("fake.rs", vec![])])]);
    let found = find_code_dir("root", &tree, &rust_exts(), false);
    assert_eq!(found.len(), 0);
}

#[test]
fn marker_alone_is_no_code_directory() {
    let tree = FsTree::Dir(vec![dir("p", vec![dir(".git", vec![])])]);
    let found = find_code_dir("root", &tree, &Lang::all_extensions(), true);
    assert_eq!(found.len(), 0);
}

#[test]
fn classify_single_directory() {
    let children = vec![dir(".git", vec![]), file("main.c")];
    let cd = is_code_dir("here", &children, &Lang::all_extensions(), false).unwrap();
    assert_eq!(cd.dir, "here".to_string());
    assert_eq!(cd.lang, Some(Lang::C));
    assert!(cd.with_git);

    let plain = vec![file("notes.txt")];
    assert!(is_code_dir("here", &plain, &Lang::all_extensions(), false).is_none());

    let unmarked = vec![file("main.c")];
    assert!(is_code_dir("here", &unmarked, &Lang::all_extensions(), true).is_none());
}

#[test]
fn unknown_extension_in_requested_set_gives_no_language() {
    // a caller may request an extension outside the taxonomy; the match is
    // reported with no language
    let exts = vec!["weird".to_string()];
    let tree = FsTree::Dir(vec![dir("p", vec![file("thing.weird")])]);
    let found = find_code_dir("root", &tree, &exts, false);
    assert_eq!(found.len(), 1);
    assert_eq!(found[0].lang, None);
    assert_eq!(found[0].render(), "root/p:  ".to_string());
}
