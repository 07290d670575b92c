use code_manager::git::{branch_from_output, get_git_status, uncommitted_from_output};

#[test]
fn branch_probe_success_trims_output() {
    assert_eq!(branch_from_output(true, "main\n"), Some("main".to_string()));
    assert_eq!(
        branch_from_output(true, "  feature/x \n"),
        Some("feature/x".to_string())
    );
}

#[test]
fn branch_probe_failure_is_absent() {
    assert_eq!(branch_from_output(false, "fatal: not a git repository\n"), None);
    assert_eq!(branch_from_output(false, ""), None);
}

#[test]
fn uncommitted_probe_counts_status_lines() {
    assert_eq!(uncommitted_from_output(true, ""), Some(false));
    assert_eq!(uncommitted_from_output(true, " M src/lib.rs\n"), Some(true));
    assert_eq!(uncommitted_from_output(true, "?? new\n?? other\n"), Some(true));
    assert_eq!(uncommitted_from_output(false, ""), None);
}

#[test]
fn combined_status_needs_both_probes() {
    let st = get_git_status(Some("main".to_string()), Some(true)).unwrap();
    assert_eq!(st.branch, "main".to_string());
    assert!(st.uncommitted);

    assert!(get_git_status(None, Some(true)).is_none());
    assert!(get_git_status(Some("main".to_string()), None).is_none());
    assert!(get_git_status(None, None).is_none());
}

#[test]
fn status_renders_with_marker_exactly_when_dirty() {
    let clean = get_git_status(Some("main".to_string()), Some(false)).unwrap();
    assert_eq!(clean.render(), "main ".to_string());

    let dirty = get_git_status(Some("dev".to_string()), Some(true)).unwrap();
    assert_eq!(dirty.render(), "dev *".to_string());
}

#[test]
fn full_output_line_for_marked_project() {
    // the line printed for a found, marked python project with a clean tree
    let cd = code_manager::CodeDir {
        dir: "root/proj".to_string(),
        lang: Some(code_manager::Lang::Python),
        with_git: true,
    };
    let st = get_git_status(Some("main".to_string()), Some(false)).unwrap();
    let line = format!("{} {}", cd.render(), st.render());
    assert_eq!(line, "root/proj: Python Git main ".to_string());
}
