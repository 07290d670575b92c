use code_manager::lang::match_lang;
use code_manager::Lang;

#[test]
fn extensions_per_language() {
    assert_eq!(Lang::Rust.extensions(), vec!["rs".to_string()]);
    assert_eq!(Lang::Python.extensions(), vec!["py".to_string()]);
    assert_eq!(Lang::C.extensions(), vec!["c".to_string()]);
    assert_eq!(
        Lang::Cpp.extensions(),
        vec!["cpp".to_string(), "cc".to_string(), "cxx".to_string()]
    );
    assert_eq!(Lang::Java.extensions(), vec!["java".to_string()]);
    assert_eq!(Lang::JavaScript.extensions(), vec!["js".to_string()]);
    assert_eq!(Lang::TypeScript.extensions(), vec!["ts".to_string()]);
    assert_eq!(Lang::Go.extensions(), vec!["go".to_string()]);
    assert_eq!(Lang::Shell.extensions(), vec!["sh".to_string()]);
}

#[test]
fn all_extensions_is_the_union_in_order() {
    let all = Lang::all_extensions();
    let expected: Vec<String> = vec![
        "rs", "py", "c", "cpp", "cc", "cxx", "java", "js", "ts", "go", "sh",
    ]
    .into_iter()
    .map(|s| s.to_string())
    .collect();
    assert_eq!(all, expected);
}

#[test]
fn from_extension_known() {
    assert_eq!(Lang::from_extension("rs"), Some(Lang::Rust));
    assert_eq!(Lang::from_extension("py"), Some(Lang::Python));
    assert_eq!(Lang::from_extension("c"), Some(Lang::C));
    assert_eq!(Lang::from_extension("cpp"), Some(Lang::Cpp));
    assert_eq!(Lang::from_extension("cc"), Some(Lang::Cpp));
    assert_eq!(Lang::from_extension("cxx"), Some(Lang::Cpp));
    assert_eq!(Lang::from_extension("java"), Some(Lang::Java));
    assert_eq!(Lang::from_extension("js"), Some(Lang::JavaScript));
    assert_eq!(Lang::from_extension("ts"), Some(Lang::TypeScript));
    assert_eq!(Lang::from_extension("go"), Some(Lang::Go));
    assert_eq!(Lang::from_extension("sh"), Some(Lang::Shell));
}

#[test]
fn from_extension_unknown_is_absent() {
    assert_eq!(Lang::from_extension("exe"), None);
    assert_eq!(Lang::from_extension(""), None);
    assert_eq!(Lang::from_extension("RS"), None);
    assert_eq!(Lang::from_extension("rs "), None);
}

#[test]
fn match_lang_known() {
    assert_eq!(match_lang("rust"), Some(Lang::Rust));
    assert_eq!(match_lang("python"), Some(Lang::Python));
    assert_eq!(match_lang("c"), Some(Lang::C));
    assert_eq!(match_lang("cpp"), Some(Lang::Cpp));
    assert_eq!(match_lang("java"), Some(Lang::Java));
    assert_eq!(match_lang("javascript"), Some(Lang::JavaScript));
    assert_eq!(match_lang("typescript"), Some(Lang::TypeScript));
    assert_eq!(match_lang("go"), Some(Lang::Go));
    assert_eq!(match_lang("shell"), Some(Lang::Shell));
}

#[test]
fn match_lang_unknown_is_absent() {
    assert_eq!(match_lang("haskell"), None);
    assert_eq!(match_lang("Rust"), None);
    assert_eq!(match_lang(""), None);
}

#[test]
fn display_names() {
    assert_eq!(Lang::Rust.name(), "Rust");
    assert_eq!(Lang::Cpp.name(), "C++");
    assert_eq!(Lang::JavaScript.name(), "JavaScript");
    assert_eq!(Lang::Shell.name(), "Shell");
}
