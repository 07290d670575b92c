//! The directory classifier: a depth-first walk over an in-memory snapshot
//! of a directory tree. A directory whose direct children hold a file
//! with a requested extension (and, when demanded, a version-control marker
//! directory) is reported as a code directory and not descended into;
//! any other directory is recursed into.

use vstd::prelude::*;
use crate::lang::{Lang, spec_lang_of_ext};
use crate::text::{contains_string, extension_of, str_eq};

verus! {

/// One child of a directory: its bare name and what it is.
pub struct FsEntry {
    pub name: String,
    pub tree: FsTree,
}

/// A snapshot of a filesystem subtree: a plain file, or a directory with
/// its direct children in listing order.
pub enum FsTree {
    File,
    Dir(Vec<FsEntry>),
}

/// The mathematical value of a reported code directory.
pub ghost struct CodeDirView {
    pub dir: Seq<char>,
    pub lang: Option<Lang>,
    pub with_git: bool,
}

/// A directory accepted by the classifier: its path, the language detected
/// from the last matching file, and whether a version-control marker was
/// found among its children.
pub struct CodeDir {
    pub dir: String,
    pub lang: Option<Lang>,
    pub with_git: bool,
}

impl View for CodeDir {
    type V = CodeDirView;

    open spec fn view(&self) -> CodeDirView {
        CodeDirView { dir: self.dir@, lang: self.lang, with_git: self.with_git }
    }
}

impl DeepView for CodeDir {
    type V = CodeDirView;

    open spec fn deep_view(&self) -> CodeDirView {
        self.view()
    }
}

/// The rendering of a reported code directory: path, colon, the language's
/// display name (or nothing when unknown), a space, and the literal `Git`
/// exactly when the marker was present.
pub open spec fn spec_render_code_dir(cd: CodeDirView) -> Seq<char> {
    cd.dir + ": "@ + (match cd.lang {
        Some(l) => crate::lang::spec_lang_name(l),
        None => Seq::<char>::empty(),
    }) + " "@ + (if cd.with_git {
        "Git"@
    } else {
        Seq::<char>::empty()
    })
}

impl CodeDir {
    /// Render this code directory for display.
    pub fn render(&self) -> (r: String)
        ensures
            r@ == spec_render_code_dir(self@),
    {
        let mut r = self.dir.clone();
        r.append(": ");
        match self.lang {
            Some(l) => {
                r.append(l.name());
            },
            None => {},
        }
        r.append(" ");
        if self.with_git {
            r.append("Git");
        }
        proof {
            assert(r@ =~= spec_render_code_dir(self@));
        }
        r
    }
}

/// The name of the version-control marker directory.
pub open spec fn marker_name() -> Seq<char> {
    ".git"@
}

/// A child that marks its parent as version-controlled: a directory named
/// after the version-control tool.
pub open spec fn entry_is_marker(e: FsEntry) -> bool {
    e.tree is Dir && e.name@ == marker_name()
}

pub open spec fn has_marker(entries: Seq<FsEntry>) -> bool {
    exists|i: int| 0 <= i < entries.len() && entry_is_marker(entries[i])
}

/// A file child whose extension is in the requested set.
pub open spec fn entry_matches(e: FsEntry, exts: Seq<Seq<char>>) -> bool {
    &&& e.tree is File
    &&& crate::text::ext_of(e.name@) is Some
    &&& exts.contains(crate::text::ext_of(e.name@)->0)
}

/// The extension of the last matching file child, in listing order; the
/// last match decides the reported language.
pub open spec fn last_match(entries: Seq<FsEntry>, exts: Seq<Seq<char>>) -> Option<Seq<char>>
    decreases entries.len(),
{
    if entries.len() == 0 {
        None
    } else if entry_matches(entries.last(), exts) {
        Some(crate::text::ext_of(entries.last().name@)->0)
    } else {
        last_match(entries.drop_last(), exts)
    }
}

/// Classify one directory from its direct children alone: absent, or the
/// detected language together with the marker flag.
pub open spec fn classify(entries: Seq<FsEntry>, exts: Seq<Seq<char>>, need_git: bool) -> Option<
    (Option<Lang>, bool),
> {
    let git = has_marker(entries);
    if need_git && !git {
        None
    } else {
        match last_match(entries, exts) {
            Some(e) => Some((spec_lang_of_ext(e), git)),
            None => None,
        }
    }
}

/// An accepted directory entry: one the walk reports and does not enter.
pub open spec fn accepted(e: FsEntry, exts: Seq<Seq<char>>, need_git: bool) -> bool {
    e.tree is Dir && classify(e.tree->Dir_0@, exts, need_git) is Some
}

/// The path of a child of the directory at `base`.
pub open spec fn child_path(base: Seq<char>, name: Seq<char>) -> Seq<char> {
    base + seq!['/'] + name
}

/// What the walk reports for one child entry: files contribute nothing; an
/// accepted directory contributes itself; any other directory contributes
/// whatever the walk finds below it.
pub open spec fn walk_entry(base: Seq<char>, e: FsEntry, exts: Seq<Seq<char>>, need_git: bool) -> Seq<
    CodeDirView,
>
    decreases e, 0int,
{
    match e.tree {
        FsTree::File => Seq::empty(),
        FsTree::Dir(children) => {
            let p = child_path(base, e.name@);
            match classify(children@, exts, need_git) {
                Some(c) => seq![CodeDirView { dir: p, lang: c.0, with_git: c.1 }],
                None => walk_entries(p, children@, exts, need_git),
            }
        },
    }
}

/// What the walk reports for a directory's children, in listing order.
pub open spec fn walk_entries(
    base: Seq<char>,
    entries: Seq<FsEntry>,
    exts: Seq<Seq<char>>,
    need_git: bool,
) -> Seq<CodeDirView>
    decreases entries, 1int,
{
    if entries.len() == 0 {
        Seq::empty()
    } else {
        walk_entries(base, entries.drop_last(), exts, need_git) + walk_entry(
            base,
            entries.last(),
            exts,
            need_git,
        )
    }
}

/// Join a directory path and a child name with the path separator.
pub fn join_path(base: &str, name: &str) -> (r: String)
    ensures
        r@ == child_path(base@, name@),
{
    let mut r = String::from_str(base);
    r.append("/");
    r.append(name);
    proof {
        reveal_strlit("/");
        assert(r@ =~= child_path(base@, name@));
    }
    r
}

/// Classify one directory from its direct children: report it when a file
/// child carries a requested extension and, if demanded, a version-control
/// marker directory is present; the last matching file decides the language.
pub fn is_code_dir(
    dir_path: &str,
    entries: &Vec<FsEntry>,
    lang_exts: &Vec<String>,
    need_git: bool,
) -> (r: Option<CodeDir>)
    ensures
        ({
            match (r, classify(entries@, lang_exts.deep_view(), need_git)) {
                (Some(cd), Some(c)) => cd@ == (CodeDirView {
                    dir: dir_path@,
                    lang: c.0,
                    with_git: c.1,
                }),
                (None, None) => true,
                _ => false,
            }
        }),
{
    let ghost exts = lang_exts.deep_view();
    let n = entries.len();
    let mut found_git = false;
    let mut best: Option<String> = None;
    let mut i: usize = 0;
    while i < n
        invariant
            n == entries@.len(),
            0 <= i <= n,
            found_git == has_marker(entries@.take(i as int)),
            best.deep_view() == last_match(entries@.take(i as int), exts),
            exts == lang_exts.deep_view(),
        decreases n - i,
    {
        let e = &entries[i];
        let ghost prev = entries@.take(i as int);
        let ghost cur = entries@.take(i + 1);
        proof {
            assert(cur.drop_last() =~= prev);
            assert(cur.last() == entries@[i as int]);
        }
        match &e.tree {
            FsTree::Dir(_) => {
                if str_eq(e.name.as_str(), ".git") {
                    found_git = true;
                }
            },
            FsTree::File => {
                match extension_of(e.name.as_str()) {
                    Some(ext) => {
                        if contains_string(lang_exts, ext.as_str()) {
                            best = Some(ext);
                        }
                    },
                    None => {},
                }
            },
        }
        proof {
            assert(has_marker(cur) == (has_marker(prev) || entry_is_marker(entries@[i as int])))
                by {
                if has_marker(cur) {
                    let j = choose|j: int| 0 <= j < cur.len() && entry_is_marker(cur[j]);
                    if j < i {
                        assert(entry_is_marker(prev[j]));
                    }
                }
                if has_marker(prev) {
                    let j = choose|j: int| 0 <= j < prev.len() && entry_is_marker(prev[j]);
                    assert(entry_is_marker(cur[j]));
                }
                if entry_is_marker(entries@[i as int]) {
                    assert(entry_is_marker(cur[i as int]));
                }
            }
        }
        i = i + 1;
    }
    proof {
        assert(entries@.take(n as int) =~= entries@);
    }
    if need_git && !found_git {
        return None;
    }
    match best {
        Some(ext) => {
            let lang = Lang::from_extension(ext.as_str());
            Some(CodeDir { dir: String::from_str(dir_path), lang, with_git: found_git })
        },
        None => None,
    }
}

/// Walk a directory's children depth-first, appending every discovered code
/// directory to `out` in traversal order; an accepted directory is reported
/// and not entered, any other directory is recursed into.
pub fn search_entries(
    base: &str,
    entries: &Vec<FsEntry>,
    lang_exts: &Vec<String>,
    need_git: bool,
    out: &mut Vec<CodeDir>,
)
    ensures
        final(out).deep_view() == old(out).deep_view() + walk_entries(
            base@,
            entries@,
            lang_exts.deep_view(),
            need_git,
        ),
    decreases entries@,
{
    let ghost exts = lang_exts.deep_view();
    let ghost out0 = out.deep_view();
    let n = entries.len();
    let mut i: usize = 0;
    proof {
        assert(out.deep_view() =~= out0 + walk_entries(base@, entries@.take(0), exts, need_git));
    }
    while i < n
        invariant
            n == entries@.len(),
            0 <= i <= n,
            exts == lang_exts.deep_view(),
            out.deep_view() == out0 + walk_entries(base@, entries@.take(i as int), exts, need_git),
        decreases n - i,
    {
        let e = &entries[i];
        let ghost prev = entries@.take(i as int);
        let ghost cur = entries@.take(i + 1);
        proof {
            assert(cur.drop_last() =~= prev);
            assert(cur.last() == entries@[i as int]);
        }
        match &e.tree {
            FsTree::Dir(children) => {
                proof {
                    assert(children@ == entries@[i as int].tree->Dir_0@);
                }
                let p = join_path(base, e.name.as_str());
                match is_code_dir(p.as_str(), children, lang_exts, need_git) {
                    Some(cd) => {
                        let ghost dv = out.deep_view();
                        proof {
                            assert(walk_entry(base@, entries@[i as int], exts, need_git) =~= seq![
                                cd@,
                            ]);
                        }
                        out.push(cd);
                        proof {
                            assert(out.deep_view() =~= dv.push(cd@));
                            assert(out.deep_view() =~= out0 + walk_entries(
                                base@,
                                cur,
                                exts,
                                need_git,
                            ));
                        }
                    },
                    None => {
                        let ghost dv = out.deep_view();
                        proof {
                            assert(walk_entry(base@, entries@[i as int], exts, need_git)
                                == walk_entries(
                                child_path(base@, entries@[i as int].name@),
                                children@,
                                exts,
                                need_git,
                            ));
                        }
                        search_entries(p.as_str(), children, lang_exts, need_git, out);
                        proof {
                            assert(out.deep_view() == dv + walk_entry(
                                base@,
                                entries@[i as int],
                                exts,
                                need_git,
                            ));
                            assert(out.deep_view() =~= out0 + walk_entries(
                                base@,
                                cur,
                                exts,
                                need_git,
                            ));
                        }
                    },
                }
            },
            FsTree::File => {
                proof {
                    assert(out.deep_view() =~= out0 + walk_entries(base@, cur, exts, need_git));
                }
            },
        }
        i = i + 1;
    }
    proof {
        assert(entries@.take(n as int) =~= entries@);
    }
}

/// Find every code directory in the tree below `root`, whose own path is
/// `root_path`. The root itself is never reported, only directories below
/// it; the result is in depth-first traversal order.
pub fn find_code_dir(
    root_path: &str,
    root: &FsTree,
    lang_exts: &Vec<String>,
    git: bool,
) -> (r: Vec<CodeDir>)
    requires
        root is Dir,
    ensures
        r.deep_view() == walk_entries(root_path@, root->Dir_0@, lang_exts.deep_view(), git),
{
    let mut out: Vec<CodeDir> = Vec::new();
    proof {
        assert(out.deep_view() =~= Seq::<CodeDirView>::empty());
    }
    match root {
        FsTree::Dir(children) => {
            search_entries(root_path, children, lang_exts, git, &mut out);
            proof {
                assert(out.deep_view() =~= walk_entries(
                    root_path@,
                    root->Dir_0@,
                    lang_exts.deep_view(),
                    git,
                ));
            }
            out
        },
        FsTree::File => unreached(),
    }
}

} // verus!
