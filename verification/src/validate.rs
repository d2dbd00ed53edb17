//! Validation of a loaded tree: an executable check that decides the
//! structural invariant, so that only well-formed trees ever reach the
//! dispatcher. Also: equivalence up to views preserves the invariant.

use vstd::prelude::*;
use crate::builder::join_path;
use crate::codec::{extra_eqv, info_eqv, tree_eqv};
use crate::attr::FileKind;
use crate::tree::{
    bytes_eq, dir_edges_ok, edge_ok, parent_ok, path_join, valid_name, DirMap, FileTree,
    TypeExtra, MAX_INOS, SEP,
};

verus! {

/// A usable filename: non-empty and separator-free.
pub fn name_ok(n: &[u8]) -> (r: bool)
    ensures
        r == valid_name(n@),
{
    if n.len() == 0 {
        return false;
    }
    let m = n.len();
    let mut i: usize = 0;
    while i < m
        invariant
            m == n@.len(),
            i <= m,
            forall|k: int| 0 <= k < i ==> n@[k] != SEP,
        decreases m - i,
    {
        if n[i] == SEP {
            proof {
                assert(n@[i as int] == SEP);
                assert(n@.contains(SEP));
            }
            return false;
        }
        i += 1;
    }
    proof {
        if n@.contains(SEP) {
            let k = choose|k: int| 0 <= k < n@.len() && n@[k] == SEP;
            assert(n@[k] != SEP);
        }
    }
    true
}

/// Whether some edge of `dm` names the child `child_ino` under the name
/// that extends `pp` to `child_path`.
fn has_registering_edge(dm: &DirMap, pp: &Vec<u8>, child_path: &Vec<u8>, child_ino: u64) -> (r:
    bool)
    ensures
        r == exists|j: int|
            0 <= j < dm.pairs().len() && (#[trigger] dm.pairs()[j]).1 == child_ino && child_path@
                == path_join(pp@, dm.pairs()[j].0),
{
    let m = dm.entries.len();
    let mut j: usize = 0;
    while j < m
        invariant
            m == dm.pairs().len(),
            j <= m,
            forall|k: int|
                0 <= k < j ==> !((#[trigger] dm.pairs()[k]).1 == child_ino && child_path@
                    == path_join(pp@, dm.pairs()[k].0)),
        decreases m - j,
    {
        let e = &dm.entries[j];
        if e.1 == child_ino {
            let expected = join_path(pp, e.0.as_slice());
            if bytes_eq(child_path.as_slice(), expected.as_slice()) {
                proof {
                    assert((dm.pairs()[j as int]).1 == child_ino && child_path@ == path_join(
                        pp@,
                        dm.pairs()[j as int].0,
                    ));
                }
                return true;
            }
        }
        j += 1;
    }
    false
}

/// Whether the record at index `i` is properly registered in its parent.
fn check_parent(t: &FileTree, i: usize) -> (r: bool)
    requires
        1 <= i < t.infos@.len(),
        t.infos@.len() <= MAX_INOS,
    ensures
        r == parent_ok(t.infos@, i as int),
{
    let fi = &t.infos[i];
    let p = fi.parent;
    if !(1 <= p && p <= i as u64) {
        return false;
    }
    let pd = &t.infos[(p - 1) as usize];
    match &pd.type_extra {
        TypeExtra::Directory(dm) => {
            let r = has_registering_edge(dm, &pd.path, &fi.path, (i as u64) + 1);
            proof {
                assert(*dm == t.infos@[p - 1].children());
                if r {
                    let j = choose|j: int|
                        0 <= j < dm.pairs().len() && (#[trigger] dm.pairs()[j]).1 == (i as u64)
                            + 1 && fi.path@ == path_join(pd.path@, dm.pairs()[j].0);
                    assert(0 <= j < t.infos@[p - 1].children().pairs().len() && (
                    #[trigger] t.infos@[p - 1].children().pairs()[j]).1 == i + 1
                        && t.infos@[i as int].path@ == path_join(
                        t.infos@[p - 1].path@,
                        t.infos@[p - 1].children().pairs()[j].0,
                    ));
                } else {
                    if parent_ok(t.infos@, i as int) {
                        let j = choose|j: int|
                            0 <= j < t.infos@[p - 1].children().pairs().len() && (
                            #[trigger] t.infos@[p - 1].children().pairs()[j]).1 == i + 1
                                && t.infos@[i as int].path@ == path_join(
                                t.infos@[p - 1].path@,
                                t.infos@[p - 1].children().pairs()[j].0,
                            );
                        assert(0 <= j < dm.pairs().len() && (#[trigger] dm.pairs()[j]).1 == (
                        i as u64) + 1 && fi.path@ == path_join(pd.path@, dm.pairs()[j].0));
                    }
                }
            }
            r
        },
        _ => false,
    }
}

/// Whether every edge out of the directory at index `i` (if it is one) is
/// sound, with distinct names and a bounded count.
fn check_dir_edges(t: &FileTree, i: usize) -> (r: bool)
    requires
        i < t.infos@.len(),
        t.infos@.len() <= MAX_INOS,
    ensures
        r == dir_edges_ok(t.infos@, i as int),
{
    let s_len = t.infos.len();
    let fi = &t.infos[i];
    let dm = match &fi.type_extra {
        TypeExtra::Directory(d) => d,
        _ => {
            return true;
        },
    };
    let m = dm.entries.len();
    if m > s_len {
        return false;
    }
    let mut j: usize = 0;
    while j < m
        invariant
            i < t.infos@.len(),
            t.infos@.len() <= MAX_INOS,
            s_len == t.infos@.len(),
            *fi == t.infos@[i as int],
            t.infos@[i as int].is_dir(),
            *dm == t.infos@[i as int].children(),
            m == dm.pairs().len(),
            m <= t.infos@.len(),
            j <= m,
            forall|k: int|
                0 <= k < j ==> edge_ok(
                    t.infos@,
                    i as int,
                    (#[trigger] dm.pairs()[k]).0,
                    dm.pairs()[k].1,
                ),
            forall|k1: int, k2: int|
                0 <= k1 < k2 < j ==> (#[trigger] dm.pairs()[k1]).0 != (
                #[trigger] dm.pairs()[k2]).0,
        decreases m - j,
    {
        let e = &dm.entries[j];
        proof {
            assert((dm.pairs()[j as int]).0 == e.0@ && (dm.pairs()[j as int]).1 == e.1);
        }
        if !name_ok(e.0.as_slice()) {
            proof {
                lemma_edge_refutes(t.infos@, i as int, j as int);
            }
            return false;
        }
        let c = e.1;
        if !((i as u64) + 1 < c && c <= s_len as u64) {
            proof {
                lemma_edge_refutes(t.infos@, i as int, j as int);
            }
            return false;
        }
        let child = &t.infos[(c - 1) as usize];
        if child.parent != (i as u64) + 1 {
            proof {
                lemma_edge_refutes(t.infos@, i as int, j as int);
            }
            return false;
        }
        let expected = join_path(&fi.path, e.0.as_slice());
        if !bytes_eq(child.path.as_slice(), expected.as_slice()) {
            proof {
                lemma_edge_refutes(t.infos@, i as int, j as int);
            }
            return false;
        }
        let mut k: usize = 0;
        while k < j
            invariant
                i < t.infos@.len(),
                t.infos@[i as int].is_dir(),
                *dm == t.infos@[i as int].children(),
                m == dm.pairs().len(),
                k <= j < m,
                e.0@ == (dm.pairs()[j as int]).0,
                forall|k1: int|
                    0 <= k1 < k ==> (#[trigger] dm.pairs()[k1]).0 != dm.pairs()[j as int].0,
            decreases j - k,
        {
            if bytes_eq(dm.entries[k].0.as_slice(), e.0.as_slice()) {
                proof {
                    assert((dm.pairs()[k as int]).0 == dm.entries@[k as int].0@);
                    if dir_edges_ok(t.infos@, i as int) {
                        assert((dm.pairs()[k as int]).0 != (dm.pairs()[j as int]).0);
                    }
                }
                return false;
            }
            proof {
                assert((dm.pairs()[k as int]).0 == dm.entries@[k as int].0@);
            }
            k += 1;
        }
        j += 1;
    }
    true
}

/// If a particular edge of a directory is unsound, the directory's edge
/// invariant does not hold.
proof fn lemma_edge_refutes(s: Seq<crate::tree::FileInfo>, i: int, j: int)
    requires
        0 <= i < s.len(),
        s[i].is_dir(),
        0 <= j < s[i].children().pairs().len(),
    ensures
        dir_edges_ok(s, i) ==> edge_ok(
            s,
            i,
            s[i].children().pairs()[j].0,
            s[i].children().pairs()[j].1,
        ),
{
}

/// Decide the tree's structural invariant.
pub fn check_wf(t: &FileTree) -> (r: bool)
    ensures
        r == t.wf(),
{
    let n = t.infos.len();
    if n == 0 {
        return false;
    }
    if n as u64 > MAX_INOS {
        return false;
    }
    {
        let root = &t.infos[0];
        if root.parent != 0 {
            return false;
        }
        if root.path.len() != 0 {
            return false;
        }
        if !(matches!(&root.type_extra, TypeExtra::Directory(_))) {
            return false;
        }
    }
    let mut i: usize = 0;
    while i < n
        invariant
            n == t.infos@.len(),
            1 <= n,
            n <= MAX_INOS,
            i <= n,
            t.infos@[0].parent == 0,
            t.infos@[0].path@.len() == 0,
            t.infos@[0].is_dir(),
            forall|k: int| 0 <= k < i ==> (#[trigger] t.infos@[k]).attr.ino == k + 1,
            forall|k: int| 0 <= k < i ==> (#[trigger] t.infos@[k]).kind_ok(),
            forall|k: int| 1 <= k < i ==> #[trigger] parent_ok(t.infos@, k),
            forall|k: int| 0 <= k < i ==> #[trigger] dir_edges_ok(t.infos@, k),
        decreases n - i,
    {
        let fi = &t.infos[i];
        if fi.attr.ino != (i as u64) + 1 {
            return false;
        }
        let ok_kind = match &fi.type_extra {
            TypeExtra::RegularFile => matches!(fi.attr.kind, FileKind::RegularFile),
            TypeExtra::Symlink(_) => matches!(fi.attr.kind, FileKind::Symlink),
            TypeExtra::Directory(_) => matches!(fi.attr.kind, FileKind::Directory),
        };
        if !ok_kind {
            return false;
        }
        if i >= 1 {
            if !check_parent(t, i) {
                return false;
            }
        }
        if !check_dir_edges(t, i) {
            return false;
        }
        i += 1;
    }
    true
}

/// Equivalence up to views carries the structural invariant over: the two
/// trees have the same lengths, paths, attributes, kinds and edges.
pub proof fn lemma_eqv_preserves_wf(a: FileTree, b: FileTree)
    requires
        tree_eqv(a, b),
        b.wf(),
    ensures
        a.wf(),
{
    let sa = a.infos@;
    let sb = b.infos@;
    assert forall|i: int| 0 <= i < sa.len() implies (#[trigger] sa[i]).attr.ino == i + 1 by {
        assert(info_eqv(sa[i], sb[i]));
    }
    assert forall|i: int| 0 <= i < sa.len() implies (#[trigger] sa[i]).kind_ok() by {
        assert(info_eqv(sa[i], sb[i]));
        assert(sb[i].kind_ok());
    }
    assert(info_eqv(sa[0], sb[0]));
    assert forall|i: int| 1 <= i < sa.len() implies #[trigger] parent_ok(sa, i) by {
        assert(info_eqv(sa[i], sb[i]));
        assert(parent_ok(sb, i));
        let p = sb[i].parent;
        assert(info_eqv(sa[p - 1], sb[p - 1]));
        let j = choose|j: int|
            0 <= j < sb[p - 1].children().pairs().len() && (#[trigger] sb[p
                - 1].children().pairs()[j]).1 == i + 1 && sb[i].path@ == path_join(
                sb[p - 1].path@,
                sb[p - 1].children().pairs()[j].0,
            );
        assert(sa[p - 1].children().pairs() == sb[p - 1].children().pairs());
        assert((sa[p - 1].children().pairs()[j]).1 == i + 1 && sa[i].path@ == path_join(
            sa[p - 1].path@,
            sa[p - 1].children().pairs()[j].0,
        ));
    }
    assert forall|i: int| 0 <= i < sa.len() implies #[trigger] dir_edges_ok(sa, i) by {
        assert(info_eqv(sa[i], sb[i]));
        assert(dir_edges_ok(sb, i));
        if sa[i].is_dir() {
            assert(sa[i].children().pairs() == sb[i].children().pairs());
            let es = sa[i].children().pairs();
            assert forall|j: int| 0 <= j < es.len() implies edge_ok(
                sa,
                i,
                (#[trigger] es[j]).0,
                es[j].1,
            ) by {
                assert(edge_ok(sb, i, es[j].0, es[j].1));
                let c = es[j].1;
                assert(info_eqv(sa[c - 1], sb[c - 1]));
            }
        }
    }
}

} // verus!
