use code_manager::text::{contains_string, extension_of, str_eq, trim};

#[test]
fn str_eq_basic() {
    assert!(str_eq("", ""));
    assert!(str_eq("abc", "abc"));
    assert!(!str_eq("abc", "abd"));
    assert!(!str_eq("abc", "ab"));
    assert!(!str_eq("", "a"));
}

#[test]
fn extension_after_last_dot() {
    assert_eq!(extension_of("main.rs"), Some("rs".to_string()));
    assert_eq!(extension_of("archive.tar.gz"), Some("gz".to_string()));
    assert_eq!(extension_of("trailing."), Some("".to_string()));
}

#[test]
fn extension_absent_cases() {
    assert_eq!(extension_of("Makefile"), None);
    assert_eq!(extension_of(""), None);
    assert_eq!(extension_of(".git"), None);
    assert_eq!(extension_of(".gitignore"), None);
}

#[test]
fn hidden_file_with_second_dot_has_extension() {
    assert_eq!(extension_of(".config.toml"), Some("toml".to_string()));
}

#[test]
fn trim_strips_both_ends() {
    assert_eq!(trim("main\n"), "main".to_string());
    assert_eq!(trim("  spaced\t \r\n"), "spaced".to_string());
    assert_eq!(trim("inner space kept"), "inner space kept".to_string());
    assert_eq!(trim(""), "".to_string());
    assert_eq!(trim(" \n\t\r"), "".to_string());
}

#[test]
fn contains_string_membership() {
    let v = vec!["rs".to_string(), "py".to_string()];
    assert!(contains_string(&v, "rs"));
    assert!(contains_string(&v, "py"));
    assert!(!contains_string(&v, "go"));
    assert!(!contains_string(&Vec::new(), "rs"));
}
