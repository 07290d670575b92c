//! The language taxonomy: a closed set of languages, each with its file
//! extensions and display name, with lookups in both directions. All four
//! lookup tables are stated as spec functions, and the executable lookups are
//! proved to agree with them on every input.

use vstd::prelude::*;
use crate::text::str_eq;

verus! {

/// A supported programming language.
#[derive(Clone, Copy, PartialEq, Eq, Structural, Debug)]
pub enum Lang {
    Rust,
    Python,
    C,
    Cpp,
    Java,
    JavaScript,
    TypeScript,
    Go,
    Shell,
}

/// The extension set of one language, in taxonomy order.
pub open spec fn spec_extensions(l: Lang) -> Seq<Seq<char>> {
    match l {
        Lang::Rust => seq!["rs"@],
        Lang::Python => seq!["py"@],
        Lang::C => seq!["c"@],
        Lang::Cpp => seq!["cpp"@, "cc"@, "cxx"@],
        Lang::Java => seq!["java"@],
        Lang::JavaScript => seq!["js"@],
        Lang::TypeScript => seq!["ts"@],
        Lang::Go => seq!["go"@],
        Lang::Shell => seq!["sh"@],
    }
}

/// The union of every language's extensions: the per-language tables
/// concatenated in taxonomy order, so the two views cannot drift apart.
pub open spec fn spec_all_extensions() -> Seq<Seq<char>> {
    spec_extensions(Lang::Rust) + spec_extensions(Lang::Python) + spec_extensions(Lang::C)
        + spec_extensions(Lang::Cpp) + spec_extensions(Lang::Java)
        + spec_extensions(Lang::JavaScript) + spec_extensions(Lang::TypeScript)
        + spec_extensions(Lang::Go) + spec_extensions(Lang::Shell)
}

/// Extension-to-language lookup: case-sensitive exact match, absent for
/// anything outside the taxonomy.
pub open spec fn spec_lang_of_ext(ext: Seq<char>) -> Option<Lang> {
    if ext == "rs"@ {
        Some(Lang::Rust)
    } else if ext == "py"@ {
        Some(Lang::Python)
    } else if ext == "c"@ {
        Some(Lang::C)
    } else if ext == "cpp"@ || ext == "cc"@ || ext == "cxx"@ {
        Some(Lang::Cpp)
    } else if ext == "java"@ {
        Some(Lang::Java)
    } else if ext == "js"@ {
        Some(Lang::JavaScript)
    } else if ext == "ts"@ {
        Some(Lang::TypeScript)
    } else if ext == "go"@ {
        Some(Lang::Go)
    } else if ext == "sh"@ {
        Some(Lang::Shell)
    } else {
        None
    }
}

/// Name-to-language lookup for human-typed identifiers; distinct from the
/// extension table ("cpp" the name and "cpp" the extension merely coincide).
pub open spec fn spec_lang_of_name(name: Seq<char>) -> Option<Lang> {
    if name == "rust"@ {
        Some(Lang::Rust)
    } else if name == "python"@ {
        Some(Lang::Python)
    } else if name == "c"@ {
        Some(Lang::C)
    } else if name == "cpp"@ {
        Some(Lang::Cpp)
    } else if name == "java"@ {
        Some(Lang::Java)
    } else if name == "javascript"@ {
        Some(Lang::JavaScript)
    } else if name == "typescript"@ {
        Some(Lang::TypeScript)
    } else if name == "go"@ {
        Some(Lang::Go)
    } else if name == "shell"@ {
        Some(Lang::Shell)
    } else {
        None
    }
}

/// The display name of a language.
pub open spec fn spec_lang_name(l: Lang) -> Seq<char> {
    match l {
        Lang::Rust => "Rust"@,
        Lang::Python => "Python"@,
        Lang::C => "C"@,
        Lang::Cpp => "C++"@,
        Lang::Java => "Java"@,
        Lang::JavaScript => "JavaScript"@,
        Lang::TypeScript => "TypeScript"@,
        Lang::Go => "Go"@,
        Lang::Shell => "Shell"@,
    }
}

impl Lang {
    /// The extensions associated with this language.
    pub fn extensions(&self) -> (r: Vec<String>)
        ensures
            r.deep_view() == spec_extensions(*self),
    {
        let mut r: Vec<String> = Vec::new();
        match self {
            Lang::Rust => {
                r.push(String::from_str("rs"));
            },
            Lang::Python => {
                r.push(String::from_str("py"));
            },
            Lang::C => {
                r.push(String::from_str("c"));
            },
            Lang::Cpp => {
                r.push(String::from_str("cpp"));
                r.push(String::from_str("cc"));
                r.push(String::from_str("cxx"));
            },
            Lang::Java => {
                r.push(String::from_str("java"));
            },
            Lang::JavaScript => {
                r.push(String::from_str("js"));
            },
            Lang::TypeScript => {
                r.push(String::from_str("ts"));
            },
            Lang::Go => {
                r.push(String::from_str("go"));
            },
            Lang::Shell => {
                r.push(String::from_str("sh"));
            },
        }
        proof {
            assert(r.deep_view() =~= spec_extensions(*self));
        }
        r
    }

    /// The union of all languages' extensions, in the taxonomy's fixed order.
    pub fn all_extensions() -> (r: Vec<String>)
        ensures
            r.deep_view() == spec_all_extensions(),
    {
        let mut r: Vec<String> = Vec::new();
        r.push(String::from_str("rs"));
        r.push(String::from_str("py"));
        r.push(String::from_str("c"));
        r.push(String::from_str("cpp"));
        r.push(String::from_str("cc"));
        r.push(String::from_str("cxx"));
        r.push(String::from_str("java"));
        r.push(String::from_str("js"));
        r.push(String::from_str("ts"));
        r.push(String::from_str("go"));
        r.push(String::from_str("sh"));
        proof {
            assert(r.deep_view() =~= spec_all_extensions());
        }
        r
    }

    /// Look a language up by one of its extensions; total, absent on
    /// unknown extensions.
    pub fn from_extension(ext: &str) -> (r: Option<Lang>)
        ensures
            r == spec_lang_of_ext(ext@),
    {
        if str_eq(ext, "rs") {
            Some(Lang::Rust)
        } else if str_eq(ext, "py") {
            Some(Lang::Python)
        } else if str_eq(ext, "c") {
            Some(Lang::C)
        } else if str_eq(ext, "cpp") || str_eq(ext, "cc") || str_eq(ext, "cxx") {
            Some(Lang::Cpp)
        } else if str_eq(ext, "java") {
            Some(Lang::Java)
        } else if str_eq(ext, "js") {
            Some(Lang::JavaScript)
        } else if str_eq(ext, "ts") {
            Some(Lang::TypeScript)
        } else if str_eq(ext, "go") {
            Some(Lang::Go)
        } else if str_eq(ext, "sh") {
            Some(Lang::Shell)
        } else {
            None
        }
    }

    /// The display name of this language.
    pub fn name(&self) -> (r: &'static str)
        ensures
            r@ == spec_lang_name(*self),
    {
        match self {
            Lang::Rust => "Rust",
            Lang::Python => "Python",
            Lang::C => "C",
            Lang::Cpp => "C++",
            Lang::Java => "Java",
            Lang::JavaScript => "JavaScript",
            Lang::TypeScript => "TypeScript",
            Lang::Go => "Go",
            Lang::Shell => "Shell",
        }
    }
}

/// Look a language up by its human-typed name; total, absent on unknown
/// names.
pub fn match_lang(lang_str: &str) -> (r: Option<Lang>)
    ensures
        r == spec_lang_of_name(lang_str@),
{
    if str_eq(lang_str, "rust") {
        Some(Lang::Rust)
    } else if str_eq(lang_str, "python") {
        Some(Lang::Python)
    } else if str_eq(lang_str, "c") {
        Some(Lang::C)
    } else if str_eq(lang_str, "cpp") {
        Some(Lang::Cpp)
    } else if str_eq(lang_str, "java") {
        Some(Lang::Java)
    } else if str_eq(lang_str, "javascript") {
        Some(Lang::JavaScript)
    } else if str_eq(lang_str, "typescript") {
        Some(Lang::TypeScript)
    } else if str_eq(lang_str, "go") {
        Some(Lang::Go)
    } else if str_eq(lang_str, "shell") {
        Some(Lang::Shell)
    } else {
        None
    }
}

} // verus!
