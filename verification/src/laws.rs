//! Laws of the directory classifier, proved against the walk's definition:
//! a matching directory with no accepted ancestor is reported exactly once;
//! a directory that fails only the version-control requirement is skipped
//! but still descended into; and nothing below an accepted directory is
//! ever reported.

use vstd::prelude::*;
use crate::lang::spec_lang_of_ext;
use crate::walk::{
    CodeDirView, FsEntry, FsTree, accepted, child_path, classify, entry_matches, has_marker,
    last_match, walk_entries, walk_entry,
};

verus! {

/// `p` lies in the subtree rooted at the directory whose path is `c`: it is
/// `c` itself or extends it across a path separator.
pub open spec fn under(c: Seq<char>, p: Seq<char>) -> bool {
    ||| p == c
    ||| (p.len() > c.len() && p.take(c.len() as int) == c && p[c.len() as int] == '/')
}

/// `p` is the path of a proper descendant of the directory at `c`.
pub open spec fn strictly_under(c: Seq<char>, p: Seq<char>) -> bool {
    under(c, p) && p != c
}

/// A well-formed filesystem name: non-empty and free of the path separator.
pub open spec fn valid_name(n: Seq<char>) -> bool {
    n.len() > 0 && forall|i: int| 0 <= i < n.len() ==> n[i] != '/'
}

/// A well-formed directory listing, recursively: names valid and distinct
/// among siblings.
pub open spec fn valid_entries(entries: Seq<FsEntry>) -> bool
    decreases entries,
{
    &&& forall|i: int| 0 <= i < entries.len() ==> valid_name(#[trigger] entries[i].name@)
    &&& forall|i: int, j: int|
        #![trigger entries[i].name@, entries[j].name@]
        0 <= i < j < entries.len() ==> entries[i].name@ != entries[j].name@
    &&& forall|i: int|
        0 <= i < entries.len() && entries[i].tree is Dir ==> valid_entries(
            #[trigger] entries[i].tree->Dir_0@,
        )
}

/// The entry reached from `entries` by following the child indices in `p`.
pub open spec fn entry_at(entries: Seq<FsEntry>, p: Seq<int>) -> Option<FsEntry>
    decreases p.len(),
{
    if p.len() == 0 {
        None
    } else if 0 <= p[0] < entries.len() {
        let e = entries[p[0]];
        if p.len() == 1 {
            Some(e)
        } else if e.tree is Dir {
            entry_at(e.tree->Dir_0@, p.drop_first())
        } else {
            None
        }
    } else {
        None
    }
}

/// The path of the entry reached by `p`, for `p` on which [`entry_at`] is
/// present.
pub open spec fn path_at(base: Seq<char>, entries: Seq<FsEntry>, p: Seq<int>) -> Seq<char>
    decreases p.len(),
{
    if p.len() == 0 {
        base
    } else if 0 <= p[0] < entries.len() {
        let e = entries[p[0]];
        let c = child_path(base, e.name@);
        if p.len() == 1 {
            c
        } else if e.tree is Dir {
            path_at(c, e.tree->Dir_0@, p.drop_first())
        } else {
            c
        }
    } else {
        base
    }
}

/// How often a directory path occurs among the walk's reports.
pub open spec fn count_at(w: Seq<CodeDirView>, d: Seq<char>) -> nat
    decreases w.len(),
{
    if w.len() == 0 {
        0
    } else {
        count_at(w.drop_last(), d) + (if w.last().dir == d {
            1nat
        } else {
            0nat
        })
    }
}

proof fn lemma_count_concat(a: Seq<CodeDirView>, b: Seq<CodeDirView>, d: Seq<char>)
    ensures
        count_at(a + b, d) == count_at(a, d) + count_at(b, d),
    decreases b.len(),
{
    if b.len() == 0 {
        assert(a + b =~= a);
    } else {
        assert((a + b).drop_last() =~= a + b.drop_last());
        assert((a + b).last() == b.last());
        lemma_count_concat(a, b.drop_last(), d);
    }
}

proof fn lemma_under_trans(a: Seq<char>, b: Seq<char>, c: Seq<char>)
    requires
        under(a, b),
        under(b, c),
    ensures
        under(a, c),
{
    if b == a || c == b {
    } else {
        assert(b.take(a.len() as int) == a);
        assert(c.take(b.len() as int) == b);
        assert(c.take(a.len() as int) =~= c.take(b.len() as int).take(a.len() as int));
        assert(c[a.len() as int] == b[a.len() as int]);
    }
}

/// A child's path lies strictly inside its parent's subtree.
proof fn lemma_child_under(base: Seq<char>, n: Seq<char>)
    ensures
        strictly_under(base, child_path(base, n)),
{
    let c = child_path(base, n);
    assert(c.take(base.len() as int) =~= base);
    assert(c[base.len() as int] == '/');
}

/// Any path lying under a child's path determines that child's name: the
/// subtrees of two distinct validly-named siblings are disjoint.
proof fn lemma_siblings_disjoint(base: Seq<char>, n1: Seq<char>, n2: Seq<char>, p: Seq<char>)
    requires
        valid_name(n1),
        valid_name(n2),
        n1 != n2,
        under(child_path(base, n1), p),
    ensures
        !under(child_path(base, n2), p),
{
    let c1 = child_path(base, n1);
    let c2 = child_path(base, n2);
    let l1 = c1.len() as int;
    let l2 = c2.len() as int;
    if under(c2, p) {
        assert(p.take(l1) =~= c1);
        assert(p.take(l2) =~= c2);
        if l1 == l2 {
            assert(c1 =~= c2);
            assert(n1 =~= n2) by {
                assert(forall|k: int|
                    0 <= k < n1.len() ==> n1[k] == c1[base.len() + 1 + k] && n2[k] == c2[base.len()
                        + 1 + k]);
            }
            assert(false);
        } else if l1 < l2 {
            assert(c2.take(l1) =~= p.take(l2).take(l1));
            assert(c2.take(l1) =~= c1);
            assert(p.len() > l1);
            assert(c2[l1] == p.take(l2)[l1]);
            assert(c2[l1] == p[l1]);
            assert(p[l1] == '/');
            assert(c2[l1] == n2[n1.len() as int]);
            assert(false);
        } else {
            assert(c1.take(l2) =~= p.take(l1).take(l2));
            assert(c1.take(l2) =~= c2);
            assert(p.len() > l2);
            assert(c1[l2] == p.take(l1)[l2]);
            assert(c1[l2] == p[l2]);
            assert(p[l2] == '/');
            assert(c1[l2] == n1[n2.len() as int]);
            assert(false);
        }
    }
}

proof fn lemma_count_zero(w: Seq<CodeDirView>, d: Seq<char>)
    requires
        forall|k: int| 0 <= k < w.len() ==> (#[trigger] w[k].dir) != d,
    ensures
        count_at(w, d) == 0,
    decreases w.len(),
{
    if w.len() > 0 {
        lemma_count_zero(w.drop_last(), d);
    }
}

/// Every report from one entry lies in the subtree of that entry's path.
proof fn lemma_walk_entry_under(base: Seq<char>, e: FsEntry, exts: Seq<Seq<char>>, g: bool)
    ensures
        forall|k: int|
            0 <= k < walk_entry(base, e, exts, g).len() ==> under(
                child_path(base, e.name@),
                (#[trigger] walk_entry(base, e, exts, g)[k]).dir,
            ),
    decreases e, 0int,
{
    let w = walk_entry(base, e, exts, g);
    match e.tree {
        FsTree::File => {},
        FsTree::Dir(children) => {
            let c = child_path(base, e.name@);
            match classify(children@, exts, g) {
                Some(cc) => {
                    assert(w[0].dir == c);
                },
                None => {
                    lemma_walk_entries_under(c, children@, exts, g);
                    let ws = walk_entries(c, children@, exts, g);
                    assert(w == ws);
                    assert forall|k: int| 0 <= k < w.len() implies under(c, w[k].dir) by {
                        assert(ws[k] == w[k]);
                        let j = choose|j: int|
                            0 <= j < children@.len() && under(
                                child_path(c, children@[j].name@),
                                ws[k].dir,
                            );
                        lemma_child_under(c, children@[j].name@);
                        lemma_under_trans(c, child_path(c, children@[j].name@), w[k].dir);
                    }
                },
            }
        },
    }
}

/// Every report from a listing lies in the subtree of some child's path.
proof fn lemma_walk_entries_under(
    base: Seq<char>,
    entries: Seq<FsEntry>,
    exts: Seq<Seq<char>>,
    g: bool,
)
    ensures
        forall|k: int|
            0 <= k < walk_entries(base, entries, exts, g).len() ==> exists|j: int|
                0 <= j < entries.len() && under(
                    child_path(base, entries[j].name@),
                    (#[trigger] walk_entries(base, entries, exts, g)[k]).dir,
                ),
    decreases entries, 1int,
{
    if entries.len() == 0 {
    } else {
        let pre = entries.drop_last();
        let e = entries.last();
        let w = walk_entries(base, entries, exts, g);
        let wp = walk_entries(base, pre, exts, g);
        let we = walk_entry(base, e, exts, g);
        lemma_walk_entries_under(base, pre, exts, g);
        lemma_walk_entry_under(base, e, exts, g);
        assert(w == wp + we);
        assert forall|k: int| 0 <= k < w.len() implies exists|j: int|
            0 <= j < entries.len() && under(
                child_path(base, #[trigger] entries[j].name@),
                (#[trigger] w[k]).dir,
            ) by {
            if k < wp.len() {
                assert(w[k] == wp[k]);
                let j = choose|j: int|
                    0 <= j < pre.len() && under(child_path(base, pre[j].name@), wp[k].dir);
                assert(pre[j] == entries[j]);
                assert(under(child_path(base, entries[j].name@), w[k].dir));
            } else {
                assert(w[k] == we[k - wp.len()]);
                let j = entries.len() - 1;
                assert(entries[j] == e);
                assert(under(child_path(base, entries[j].name@), w[k].dir));
            }
        }
    }
}

/// The walk of a listing splits around any one of its entries.
proof fn lemma_walk_split(
    base: Seq<char>,
    entries: Seq<FsEntry>,
    exts: Seq<Seq<char>>,
    g: bool,
    i: int,
)
    requires
        0 <= i < entries.len(),
    ensures
        walk_entries(base, entries, exts, g) == walk_entries(base, entries.take(i), exts, g)
            + walk_entry(base, entries[i], exts, g) + walk_entries(
            base,
            entries.skip(i + 1),
            exts,
            g,
        ),
    decreases entries.len(),
{
    let w = walk_entries(base, entries, exts, g);
    let wa = walk_entries(base, entries.take(i), exts, g);
    let wb = walk_entry(base, entries[i], exts, g);
    if i == entries.len() - 1 {
        assert(entries.drop_last() =~= entries.take(i));
        assert(entries.last() == entries[i]);
        assert(entries.skip(i + 1) =~= Seq::<FsEntry>::empty());
        assert(walk_entries(base, entries.skip(i + 1), exts, g) == Seq::<CodeDirView>::empty());
        assert(w =~= wa + wb + walk_entries(base, entries.skip(i + 1), exts, g));
    } else {
        let dl = entries.drop_last();
        lemma_walk_split(base, dl, exts, g, i);
        assert(dl.take(i) =~= entries.take(i));
        assert(dl[i] == entries[i]);
        let sk = entries.skip(i + 1);
        assert(sk.len() > 0);
        assert(sk.drop_last() =~= dl.skip(i + 1));
        assert(sk.last() == entries.last());
        assert(walk_entries(base, sk, exts, g) == walk_entries(base, sk.drop_last(), exts, g)
            + walk_entry(base, sk.last(), exts, g));
        assert(w == walk_entries(base, dl, exts, g) + walk_entry(base, entries.last(), exts, g));
        assert(w =~= wa + wb + walk_entries(base, sk, exts, g));
    }
}

/// The path of a node lies in the subtree of its first-level ancestor.
proof fn lemma_path_at_under(base: Seq<char>, entries: Seq<FsEntry>, p: Seq<int>)
    requires
        p.len() >= 1,
        entry_at(entries, p) is Some,
    ensures
        under(child_path(base, entries[p[0]].name@), path_at(base, entries, p)),
    decreases p.len(),
{
    let e = entries[p[0]];
    let c = child_path(base, e.name@);
    if p.len() == 1 {
    } else {
        let ch = e.tree->Dir_0@;
        let p2 = p.drop_first();
        lemma_path_at_under(c, ch, p2);
        lemma_child_under(c, ch[p2[0]].name@);
        lemma_under_trans(c, child_path(c, ch[p2[0]].name@), path_at(c, ch, p2));
    }
}

/// The side parts of a split walk — the reports of the siblings of entry
/// `i` — never name a path at or below the subtree of entry `i`.
proof fn lemma_side_parts_clear(
    base: Seq<char>,
    entries: Seq<FsEntry>,
    exts: Seq<Seq<char>>,
    g: bool,
    i: int,
    d: Seq<char>,
)
    requires
        valid_entries(entries),
        0 <= i < entries.len(),
        under(child_path(base, entries[i].name@), d),
    ensures
        ({
            let wa = walk_entries(base, entries.take(i), exts, g);
            let wc = walk_entries(base, entries.skip(i + 1), exts, g);
            &&& forall|k: int| 0 <= k < wa.len() ==> !under(d, (#[trigger] wa[k]).dir)
            &&& forall|k: int| 0 <= k < wc.len() ==> !under(d, (#[trigger] wc[k]).dir)
        }),
{
    let ci = child_path(base, entries[i].name@);
    let wa = walk_entries(base, entries.take(i), exts, g);
    let wc = walk_entries(base, entries.skip(i + 1), exts, g);
    lemma_walk_entries_under(base, entries.take(i), exts, g);
    lemma_walk_entries_under(base, entries.skip(i + 1), exts, g);
    assert forall|k: int| 0 <= k < wa.len() implies !under(d, wa[k].dir) by {
        let pre = entries.take(i);
        let j = choose|j: int|
            0 <= j < pre.len() && under(child_path(base, pre[j].name@), wa[k].dir);
        assert(pre[j] == entries[j]);
        assert(entries[j].name@ != entries[i].name@);
        if under(d, wa[k].dir) {
            lemma_under_trans(ci, d, wa[k].dir);
            lemma_siblings_disjoint(base, entries[j].name@, entries[i].name@, wa[k].dir);
        }
    }
    assert forall|k: int| 0 <= k < wc.len() implies !under(d, wc[k].dir) by {
        let post = entries.skip(i + 1);
        let j = choose|j: int|
            0 <= j < post.len() && under(child_path(base, post[j].name@), wc[k].dir);
        assert(post[j] == entries[i + 1 + j]);
        assert(entries[i + 1 + j].name@ != entries[i].name@);
        if under(d, wc[k].dir) {
            lemma_under_trans(ci, d, wc[k].dir);
            lemma_siblings_disjoint(base, entries[i + 1 + j].name@, entries[i].name@, wc[k].dir);
        }
    }
}

/// An accepted directory with no accepted proper ancestor is reported
/// exactly once, as itself, and nothing below it is reported.
proof fn lemma_walk_at_accepted(
    base: Seq<char>,
    entries: Seq<FsEntry>,
    exts: Seq<Seq<char>>,
    g: bool,
    p: Seq<int>,
)
    requires
        valid_entries(entries),
        p.len() >= 1,
        entry_at(entries, p) is Some,
        accepted(entry_at(entries, p)->0, exts, g),
        forall|m: int|
            1 <= m < p.len() ==> !accepted(entry_at(entries, #[trigger] p.take(m))->0, exts, g),
    ensures
        ({
            let w = walk_entries(base, entries, exts, g);
            let d = path_at(base, entries, p);
            let c = classify(entry_at(entries, p)->0.tree->Dir_0@, exts, g)->0;
            &&& count_at(w, d) == 1
            &&& w.contains(CodeDirView { dir: d, lang: c.0, with_git: c.1 })
            &&& forall|k: int| 0 <= k < w.len() ==> !strictly_under(d, (#[trigger] w[k]).dir)
        }),
    decreases p.len(),
{
    let w = walk_entries(base, entries, exts, g);
    let d = path_at(base, entries, p);
    let c = classify(entry_at(entries, p)->0.tree->Dir_0@, exts, g)->0;
    let goal = CodeDirView { dir: d, lang: c.0, with_git: c.1 };
    let i = p[0];
    let e = entries[i];
    let ci = child_path(base, e.name@);
    lemma_walk_split(base, entries, exts, g, i);
    let wa = walk_entries(base, entries.take(i), exts, g);
    let wb = walk_entry(base, e, exts, g);
    let wc = walk_entries(base, entries.skip(i + 1), exts, g);
    lemma_path_at_under(base, entries, p);
    lemma_side_parts_clear(base, entries, exts, g, i, d);
    // the middle part carries exactly the one report
    if p.len() == 1 {
        assert(d == ci);
        assert(wb =~= seq![goal]);
        assert(wb.drop_last() =~= Seq::<CodeDirView>::empty());
        assert(count_at(Seq::<CodeDirView>::empty(), d) == 0);
        assert(count_at(wb, d) == count_at(wb.drop_last(), d) + 1);
        assert(forall|k: int| 0 <= k < wb.len() ==> !strictly_under(d, (#[trigger] wb[k]).dir));
    } else {
        assert(p.take(1)[0] == p[0]);
        assert(entry_at(entries, p.take(1)) == Some(e));
        assert(!accepted(e, exts, g));
        let ch = e.tree->Dir_0@;
        assert(classify(ch, exts, g) is None);
        assert(wb == walk_entries(ci, ch, exts, g));
        let p2 = p.drop_first();
        assert(entry_at(ch, p2) == entry_at(entries, p));
        assert(path_at(ci, ch, p2) == d);
        assert(valid_entries(ch));
        assert forall|m: int| 1 <= m < p2.len() implies !accepted(
            entry_at(ch, #[trigger] p2.take(m))->0,
            exts,
            g,
        ) by {
            assert(p.take(m + 1).drop_first() =~= p2.take(m));
            assert(p.take(m + 1)[0] == i);
            assert(entry_at(entries, p.take(m + 1)) == entry_at(ch, p2.take(m)));
            assert(!accepted(entry_at(entries, p.take(m + 1))->0, exts, g));
        }
        lemma_walk_at_accepted(ci, ch, exts, g, p2);
        assert(count_at(wb, d) == 1);
    }
    // combine the three parts
    assert(w == wa + wb + wc);
    lemma_count_concat(wa + wb, wc, d);
    lemma_count_concat(wa, wb, d);
    assert forall|k: int| 0 <= k < wa.len() implies (#[trigger] wa[k]).dir != d by {
        assert(!under(d, wa[k].dir));
    }
    assert forall|k: int| 0 <= k < wc.len() implies (#[trigger] wc[k]).dir != d by {
        assert(!under(d, wc[k].dir));
    }
    lemma_count_zero(wa, d);
    lemma_count_zero(wc, d);
    assert(count_at(w, d) == 1);
    // the one report is the accepted directory itself
    assert(wb.contains(goal));
    let kb = choose|kb: int| 0 <= kb < wb.len() && wb[kb] == goal;
    assert(w[wa.len() + kb] == goal);
    assert(w.contains(goal));
    // nothing below the accepted directory is reported
    assert forall|k: int| 0 <= k < w.len() implies !strictly_under(d, (#[trigger] w[k]).dir) by {
        if k < wa.len() {
            assert(w[k] == wa[k]);
            assert(!under(d, wa[k].dir));
        } else if k < wa.len() + wb.len() {
            assert(w[k] == wb[k - wa.len()]);
        } else {
            assert(w[k] == wc[k - wa.len() - wb.len()]);
            assert(!under(d, wc[k - wa.len() - wb.len()].dir));
        }
    }
}

/// A directory that is not accepted, below no accepted ancestor, is absent
/// from the result, while everything the walk finds below it is kept.
proof fn lemma_walk_at_unaccepted(
    base: Seq<char>,
    entries: Seq<FsEntry>,
    exts: Seq<Seq<char>>,
    g: bool,
    p: Seq<int>,
)
    requires
        valid_entries(entries),
        p.len() >= 1,
        entry_at(entries, p) is Some,
        entry_at(entries, p)->0.tree is Dir,
        forall|m: int|
            1 <= m <= p.len() ==> !accepted(entry_at(entries, #[trigger] p.take(m))->0, exts, g),
    ensures
        ({
            let w = walk_entries(base, entries, exts, g);
            let d = path_at(base, entries, p);
            let sub = walk_entries(d, entry_at(entries, p)->0.tree->Dir_0@, exts, g);
            &&& count_at(w, d) == 0
            &&& forall|x: CodeDirView| sub.contains(x) ==> w.contains(x)
        }),
    decreases p.len(),
{
    let w = walk_entries(base, entries, exts, g);
    let d = path_at(base, entries, p);
    let sub = walk_entries(d, entry_at(entries, p)->0.tree->Dir_0@, exts, g);
    let i = p[0];
    let e = entries[i];
    let ci = child_path(base, e.name@);
    lemma_walk_split(base, entries, exts, g, i);
    let wa = walk_entries(base, entries.take(i), exts, g);
    let wb = walk_entry(base, e, exts, g);
    let wc = walk_entries(base, entries.skip(i + 1), exts, g);
    lemma_path_at_under(base, entries, p);
    lemma_side_parts_clear(base, entries, exts, g, i, d);
    if p.len() == 1 {
        assert(d == ci);
        assert(p.take(1) =~= p);
        assert(entry_at(entries, p.take(1)) == Some(e));
        assert(!accepted(e, exts, g));
        let ch = e.tree->Dir_0@;
        assert(classify(ch, exts, g) is None);
        assert(wb == walk_entries(ci, ch, exts, g));
        assert(wb == sub);
        lemma_walk_entries_under(ci, ch, exts, g);
        assert forall|k: int| 0 <= k < wb.len() implies (#[trigger] wb[k]).dir != d by {
            let j = choose|j: int|
                0 <= j < ch.len() && under(child_path(ci, ch[j].name@), wb[k].dir);
            assert(wb[k].dir.len() >= child_path(ci, ch[j].name@).len());
            assert(child_path(ci, ch[j].name@).len() > d.len());
        }
        lemma_count_zero(wb, d);
    } else {
        assert(p.take(1)[0] == p[0]);
        assert(entry_at(entries, p.take(1)) == Some(e));
        assert(!accepted(e, exts, g));
        let ch = e.tree->Dir_0@;
        assert(classify(ch, exts, g) is None);
        assert(wb == walk_entries(ci, ch, exts, g));
        let p2 = p.drop_first();
        assert(entry_at(ch, p2) == entry_at(entries, p));
        assert(path_at(ci, ch, p2) == d);
        assert(valid_entries(ch));
        assert forall|m: int| 1 <= m <= p2.len() implies !accepted(
            entry_at(ch, #[trigger] p2.take(m))->0,
            exts,
            g,
        ) by {
            assert(p.take(m + 1).drop_first() =~= p2.take(m));
            assert(p.take(m + 1)[0] == i);
            assert(entry_at(entries, p.take(m + 1)) == entry_at(ch, p2.take(m)));
            assert(!accepted(entry_at(entries, p.take(m + 1))->0, exts, g));
        }
        lemma_walk_at_unaccepted(ci, ch, exts, g, p2);
        assert(count_at(wb, d) == 0);
        assert(forall|x: CodeDirView| sub.contains(x) ==> wb.contains(x));
    }
    // combine the three parts
    assert(w == wa + wb + wc);
    lemma_count_concat(wa + wb, wc, d);
    lemma_count_concat(wa, wb, d);
    assert forall|k: int| 0 <= k < wa.len() implies (#[trigger] wa[k]).dir != d by {
        assert(!under(d, wa[k].dir));
    }
    assert forall|k: int| 0 <= k < wc.len() implies (#[trigger] wc[k]).dir != d by {
        assert(!under(d, wc[k].dir));
    }
    lemma_count_zero(wa, d);
    lemma_count_zero(wc, d);
    assert(count_at(w, d) == 0);
    assert forall|x: CodeDirView| sub.contains(x) implies w.contains(x) by {
        assert(wb.contains(x));
        let kb = choose|kb: int| 0 <= kb < wb.len() && wb[kb] == x;
        assert(w[wa.len() + kb] == x);
    }
}

/// A listing with some matching child has a last match.
proof fn lemma_match_last_some(entries: Seq<FsEntry>, exts: Seq<Seq<char>>, i: int)
    requires
        0 <= i < entries.len(),
        entry_matches(entries[i], exts),
    ensures
        last_match(entries, exts) is Some,
    decreases entries.len(),
{
    if entry_matches(entries.last(), exts) {
    } else {
        assert(i < entries.len() - 1);
        assert(entries.drop_last()[i] == entries[i]);
        lemma_match_last_some(entries.drop_last(), exts, i);
    }
}

/// Law: a directory whose direct children hold a file with a requested
/// extension is, with no version-control requirement active and no accepted
/// proper ancestor, reported exactly once, with its language resolved from
/// the extension of its last matching child through the extension table.
pub proof fn lemma_matching_dir_reported_once(
    base: Seq<char>,
    entries: Seq<FsEntry>,
    exts: Seq<Seq<char>>,
    p: Seq<int>,
    i: int,
)
    requires
        valid_entries(entries),
        p.len() >= 1,
        entry_at(entries, p) is Some,
        entry_at(entries, p)->0.tree is Dir,
        0 <= i < entry_at(entries, p)->0.tree->Dir_0@.len(),
        entry_matches(entry_at(entries, p)->0.tree->Dir_0@[i], exts),
        forall|m: int|
            1 <= m < p.len() ==> !accepted(entry_at(entries, #[trigger] p.take(m))->0, exts, false),
    ensures
        ({
            let w = walk_entries(base, entries, exts, false);
            let d = path_at(base, entries, p);
            let ch = entry_at(entries, p)->0.tree->Dir_0@;
            &&& count_at(w, d) == 1
            &&& w.contains(
                CodeDirView {
                    dir: d,
                    lang: spec_lang_of_ext(last_match(ch, exts)->0),
                    with_git: has_marker(ch),
                },
            )
        }),
{
    let ch = entry_at(entries, p)->0.tree->Dir_0@;
    lemma_match_last_some(ch, exts, i);
    assert(classify(ch, exts, false) is Some);
    lemma_walk_at_accepted(base, entries, exts, false, p);
}

/// Law: a directory with a matching file child but no version-control
/// marker is, when version control is required and no proper ancestor is
/// accepted, absent from the result, while the walk still descends into it:
/// whatever the walk reports below that directory on its own, the full walk
/// reports too.
pub proof fn lemma_unmarked_dir_skipped_but_recursed(
    base: Seq<char>,
    entries: Seq<FsEntry>,
    exts: Seq<Seq<char>>,
    p: Seq<int>,
    i: int,
)
    requires
        valid_entries(entries),
        p.len() >= 1,
        entry_at(entries, p) is Some,
        entry_at(entries, p)->0.tree is Dir,
        0 <= i < entry_at(entries, p)->0.tree->Dir_0@.len(),
        entry_matches(entry_at(entries, p)->0.tree->Dir_0@[i], exts),
        !has_marker(entry_at(entries, p)->0.tree->Dir_0@),
        forall|m: int|
            1 <= m < p.len() ==> !accepted(entry_at(entries, #[trigger] p.take(m))->0, exts, true),
    ensures
        ({
            let w = walk_entries(base, entries, exts, true);
            let d = path_at(base, entries, p);
            let ch = entry_at(entries, p)->0.tree->Dir_0@;
            &&& count_at(w, d) == 0
            &&& forall|x: CodeDirView| walk_entries(d, ch, exts, true).contains(x) ==> w.contains(x)
        }),
{
    let e = entry_at(entries, p)->0;
    let ch = e.tree->Dir_0@;
    assert(classify(ch, exts, true) is None);
    assert forall|m: int| 1 <= m <= p.len() implies !accepted(
        entry_at(entries, #[trigger] p.take(m))->0,
        exts,
        true,
    ) by {
        if m == p.len() {
            assert(p.take(m) =~= p);
        }
    }
    lemma_walk_at_unaccepted(base, entries, exts, true, p);
}

/// The per-entry half of the non-overlap law.
proof fn lemma_walk_entry_nonoverlapping(base: Seq<char>, e: FsEntry, exts: Seq<Seq<char>>, g: bool)
    requires
        e.tree is Dir ==> valid_entries(e.tree->Dir_0@),
    ensures
        ({
            let w = walk_entry(base, e, exts, g);
            forall|k1: int, k2: int|
                0 <= k1 < w.len() && 0 <= k2 < w.len() ==> !strictly_under(
                    (#[trigger] w[k1]).dir,
                    (#[trigger] w[k2]).dir,
                )
        }),
    decreases e, 0int,
{
    match e.tree {
        FsTree::File => {},
        FsTree::Dir(children) => {
            let c = child_path(base, e.name@);
            match classify(children@, exts, g) {
                Some(cc) => {},
                None => {
                    lemma_walk_entries_nonoverlapping(c, children@, exts, g);
                },
            }
        },
    }
}

/// Law: the walk never reports both a directory and one of its descendants;
/// once a directory is accepted as a code directory, nothing below it
/// appears in the result.
pub proof fn lemma_walk_entries_nonoverlapping(
    base: Seq<char>,
    entries: Seq<FsEntry>,
    exts: Seq<Seq<char>>,
    g: bool,
)
    requires
        valid_entries(entries),
    ensures
        ({
            let w = walk_entries(base, entries, exts, g);
            forall|k1: int, k2: int|
                0 <= k1 < w.len() && 0 <= k2 < w.len() ==> !strictly_under(
                    (#[trigger] w[k1]).dir,
                    (#[trigger] w[k2]).dir,
                )
        }),
    decreases entries, 1int,
{
    if entries.len() == 0 {
    } else {
        let pre = entries.drop_last();
        let e = entries.last();
        let w = walk_entries(base, entries, exts, g);
        let wp = walk_entries(base, pre, exts, g);
        let we = walk_entry(base, e, exts, g);
        assert(valid_entries(pre)) by {
            assert(forall|i: int| 0 <= i < pre.len() ==> pre[i] == entries[i]);
        }
        assert(e.tree is Dir ==> valid_entries(e.tree->Dir_0@)) by {
            assert(e == entries[entries.len() - 1]);
        }
        lemma_walk_entries_nonoverlapping(base, pre, exts, g);
        lemma_walk_entry_nonoverlapping(base, e, exts, g);
        lemma_walk_entries_under(base, pre, exts, g);
        lemma_walk_entry_under(base, e, exts, g);
        assert(w == wp + we);
        let cl = child_path(base, e.name@);
        assert forall|k1: int, k2: int|
            0 <= k1 < w.len() && 0 <= k2 < w.len() implies !strictly_under(
            (#[trigger] w[k1]).dir,
            (#[trigger] w[k2]).dir,
        ) by {
            if k1 < wp.len() && k2 < wp.len() {
                assert(w[k1] == wp[k1] && w[k2] == wp[k2]);
            } else if k1 >= wp.len() && k2 >= wp.len() {
                assert(w[k1] == we[k1 - wp.len()] && w[k2] == we[k2 - wp.len()]);
            } else if k1 < wp.len() && k2 >= wp.len() {
                assert(w[k1] == wp[k1] && w[k2] == we[k2 - wp.len()]);
                let j = choose|j: int|
                    0 <= j < pre.len() && under(child_path(base, pre[j].name@), wp[k1].dir);
                assert(pre[j] == entries[j]);
                assert(entries[j].name@ != e.name@);
                assert(under(cl, we[k2 - wp.len()].dir));
                if strictly_under(w[k1].dir, w[k2].dir) {
                    lemma_under_trans(child_path(base, entries[j].name@), w[k1].dir, w[k2].dir);
                    lemma_siblings_disjoint(base, entries[j].name@, e.name@, w[k2].dir);
                }
            } else {
                assert(w[k1] == we[k1 - wp.len()] && w[k2] == wp[k2]);
                let j = choose|j: int|
                    0 <= j < pre.len() && under(child_path(base, pre[j].name@), wp[k2].dir);
                assert(pre[j] == entries[j]);
                assert(entries[j].name@ != e.name@);
                assert(under(cl, we[k1 - wp.len()].dir));
                if strictly_under(w[k1].dir, w[k2].dir) {
                    lemma_under_trans(cl, w[k1].dir, w[k2].dir);
                    lemma_siblings_disjoint(base, entries[j].name@, e.name@, w[k2].dir);
                }
            }
        }
    }
}

} // verus!
