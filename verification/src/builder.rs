//! Breadth-first construction of the inode tree. The builder owns the inode
//! counter and the frontier of directories still to be listed; the caller
//! performs the actual directory listing and metadata reads and feeds each
//! entry in. The tree under construction is well formed at every step.

use vstd::prelude::*;
use crate::attr::{meta2attr, spec_meta2attr, spec_kind_of, FileKind, RawMeta};
use crate::tree::{
    dir_edges_ok, edge_ok, parent_ok, path_join, valid_name, DirMap, FileInfo, FileTree,
    TypeExtra, MAX_INOS, SEP,
};

verus! {

/// Copy of a byte slice into a fresh vector.
pub fn bytes_clone(a: &[u8]) -> (r: Vec<u8>)
    ensures
        r@ == a@,
{
    let mut r: Vec<u8> = Vec::new();
    let n = a.len();
    let mut i: usize = 0;
    while i < n
        invariant
            n == a@.len(),
            i <= n,
            r@ =~= a@.subrange(0, i as int),
        decreases n - i,
    {
        r.push(a[i]);
        i += 1;
    }
    proof {
        assert(a@.subrange(0, n as int) =~= a@);
    }
    r
}

/// One relative path extended by one component.
pub fn join_path(pp: &Vec<u8>, n: &[u8]) -> (r: Vec<u8>)
    ensures
        r@ == path_join(pp@, n@),
{
    if pp.len() == 0 {
        bytes_clone(n)
    } else {
        let mut r = bytes_clone(pp.as_slice());
        r.push(SEP);
        let m = n.len();
        let mut i: usize = 0;
        while i < m
            invariant
                m == n@.len(),
                i <= m,
                r@ =~= pp@ + seq![SEP] + n@.subrange(0, i as int),
            decreases m - i,
        {
            r.push(n[i]);
            proof {
                assert(r@ =~= pp@ + seq![SEP] + n@.subrange(0, i + 1));
            }
            i += 1;
        }
        proof {
            assert(n@.subrange(0, m as int) =~= n@);
        }
        r
    }
}

/// What became of one scanned entry.
#[derive(Clone, Copy, PartialEq, Eq, Structural, Debug)]
pub enum AddOutcome {
    /// Installed under this (fresh) inode number.
    Added(u64),
    /// Unsupported kind: neither regular file, directory nor symlink.
    SkippedKind,
    /// A symlink whose target could not be read.
    SkippedTarget,
    /// Empty name, a name holding a separator, or a duplicate in this directory.
    SkippedName,
    /// The tree is at capacity.
    Full,
}

/// The breadth-first tree builder.
pub struct TreeBuilder {
    pub tree: FileTree,
    /// Directory inodes whose listing has not been applied yet, in discovery
    /// order; `cursor` marks the first not yet handed out.
    pub pending: Vec<u64>,
    pub cursor: usize,
}

impl TreeBuilder {
    pub open spec fn wf(self) -> bool {
        &&& self.tree.wf()
        &&& self.cursor <= self.pending@.len()
        &&& forall|k: int|
            0 <= k < self.pending@.len() ==> {
                &&& self.tree.contains_ino(#[trigger] self.pending@[k])
                &&& self.tree.info_of(self.pending@[k]).is_dir()
            }
    }

    /// Start a tree: install the root (inode 1, no parent, empty path, empty
    /// children) from the root's metadata and seed the frontier with it.
    /// `None` iff the metadata does not describe a directory.
    pub fn new(root_meta: &RawMeta) -> (r: Option<TreeBuilder>)
        ensures
            match r {
                Some(b) => {
                    &&& spec_kind_of(*root_meta) == Some(FileKind::Directory)
                    &&& b.wf()
                    &&& b.tree.infos@.len() == 1
                    &&& b.tree.info_of(1).parent == 0
                    &&& b.tree.info_of(1).path@.len() == 0
                    &&& b.tree.info_of(1).attr == spec_meta2attr(*root_meta, 1)->0
                    &&& b.tree.info_of(1).is_dir()
                    &&& b.tree.info_of(1).children().pairs().len() == 0
                    &&& b.pending@ == seq![1u64]
                    &&& b.cursor == 0
                },
                None => spec_kind_of(*root_meta) != Some(FileKind::Directory),
            },
    {
        let attr = match meta2attr(root_meta, 1) {
            None => { return None; },
            Some(a) => a,
        };
        if !matches!(attr.kind, FileKind::Directory) {
            return None;
        }
        let root = FileInfo {
            parent: 0,
            path: Vec::new(),
            attr,
            type_extra: TypeExtra::Directory(DirMap::new()),
        };
        let mut infos: Vec<FileInfo> = Vec::new();
        infos.push(root);
        let tree = FileTree { infos };
        let mut pending: Vec<u64> = Vec::new();
        pending.push(1);
        proof {
            assert(pending@ =~= seq![1u64]);
            assert forall|i: int| 0 <= i < tree.infos@.len() implies #[trigger] dir_edges_ok(
                tree.infos@,
                i,
            ) by {
                assert(tree.infos@[0].children().pairs().len() == 0);
            }
        }
        Some(TreeBuilder { tree, pending, cursor: 0 })
    }

    /// Hand out the next directory of the frontier, or `None` when the scan
    /// is complete. The tree itself is untouched.
    pub fn next_dir(&mut self) -> (r: Option<u64>)
        requires
            old(self).wf(),
        ensures
            final(self).wf(),
            final(self).tree == old(self).tree,
            final(self).pending == old(self).pending,
            match r {
                Some(d) => {
                    &&& old(self).cursor < old(self).pending@.len()
                    &&& d == old(self).pending@[old(self).cursor as int]
                    &&& final(self).cursor == old(self).cursor + 1
                    &&& final(self).tree.contains_ino(d)
                    &&& final(self).tree.info_of(d).is_dir()
                },
                None => {
                    &&& old(self).cursor == old(self).pending@.len()
                    &&& final(self).cursor == old(self).cursor
                },
            },
    {
        if self.cursor < self.pending.len() {
            let d = self.pending[self.cursor];
            self.cursor += 1;
            Some(d)
        } else {
            None
        }
    }

    /// The outcome `add_entry` owes for given inputs: unsupported kinds,
    /// unreadable symlink targets and unusable names are skipped, a full
    /// tree rejects, and everything else is installed under the next inode.
    pub open spec fn spec_add_outcome(
        t: FileTree,
        dir: u64,
        name: Seq<u8>,
        m: RawMeta,
        has_target: bool,
    ) -> AddOutcome {
        if spec_kind_of(m) is None {
            AddOutcome::SkippedKind
        } else if spec_kind_of(m) == Some(FileKind::Symlink) && !has_target {
            AddOutcome::SkippedTarget
        } else if !valid_name(name) || t.info_of(dir).children().contains_name(name) {
            AddOutcome::SkippedName
        } else if t.infos@.len() >= MAX_INOS {
            AddOutcome::Full
        } else {
            AddOutcome::Added((t.infos@.len() + 1) as u64)
        }
    }

    /// Install one scanned entry of directory `dir`: assign it the next
    /// inode number, record its attribute record and payload, register it
    /// in `dir`'s children, and, for a directory, push it onto the frontier.
    pub fn add_entry(
        &mut self,
        dir: u64,
        name: &[u8],
        meta: &RawMeta,
        link_target: Option<Vec<u8>>,
    ) -> (r: AddOutcome)
        requires
            old(self).wf(),
            old(self).tree.contains_ino(dir),
            old(self).tree.info_of(dir).is_dir(),
        ensures
            final(self).wf(),
            final(self).cursor == old(self).cursor,
            r == Self::spec_add_outcome(
                old(self).tree,
                dir,
                name@,
                *meta,
                link_target is Some,
            ),
            !(r is Added) ==> *final(self) == *old(self),
            r is Added ==> {
                let t0 = old(self).tree;
                let t1 = final(self).tree;
                let c = t0.infos@.len() + 1;
                &&& r->Added_0 == c
                &&& t1.infos@.len() == t0.infos@.len() + 1
                &&& t1.contains_ino(c as u64)
                &&& t1.info_of(c as u64).parent == dir
                &&& t1.info_of(c as u64).path@ == path_join(t0.info_of(dir).path@, name@)
                &&& Some(t1.info_of(c as u64).attr) == spec_meta2attr(*meta, c as u64)
                &&& match spec_kind_of(*meta) {
                    Some(FileKind::Directory) => t1.info_of(c as u64).is_dir()
                        && t1.info_of(c as u64).children().pairs().len() == 0,
                    Some(FileKind::Symlink) => t1.info_of(c as u64).is_symlink()
                        && t1.info_of(c as u64).target() == link_target->0@,
                    _ => t1.info_of(c as u64).type_extra is RegularFile,
                }
                &&& t1.info_of(dir).parent == t0.info_of(dir).parent
                &&& t1.info_of(dir).path == t0.info_of(dir).path
                &&& t1.info_of(dir).attr == t0.info_of(dir).attr
                &&& t1.info_of(dir).children().pairs() == t0.info_of(dir).children().pairs().push(
                    (name@, c as u64),
                )
                &&& forall|i: int|
                    0 <= i < t0.infos@.len() && i != dir - 1 ==> t1.infos@[i] == t0.infos@[i]
                &&& final(self).pending@ == if spec_kind_of(*meta) == Some(FileKind::Directory) {
                    old(self).pending@.push(c as u64)
                } else {
                    old(self).pending@
                }
            },
    {
        let ghost t0 = self.tree;
        let kind = match crate::attr::kind_of(meta) {
            None => { return AddOutcome::SkippedKind; },
            Some(k) => k,
        };
        let target: Option<Vec<u8>> = if matches!(kind, FileKind::Symlink) {
            match link_target {
                None => { return AddOutcome::SkippedTarget; },
                Some(t) => Some(t),
            }
        } else {
            None
        };
        // Name filter: non-empty, separator-free, fresh in this directory.
        let mut name_ok = name.len() > 0;
        let nl = name.len();
        let mut i: usize = 0;
        while i < nl
            invariant
                nl == name@.len(),
                i <= nl,
                name_ok == (name@.len() > 0 && !name@.subrange(0, i as int).contains(SEP)),
            decreases nl - i,
        {
            let ghost pre = name@.subrange(0, i as int);
            if name[i] == SEP {
                name_ok = false;
            }
            proof {
                assert(name@.subrange(0, i + 1) =~= pre.push(name@[i as int]));
                if name@[i as int] == SEP {
                    assert(name@.subrange(0, i + 1)[i as int] == SEP);
                    assert(name@.subrange(0, i + 1).contains(SEP));
                } else {
                    if name@.subrange(0, i + 1).contains(SEP) && !pre.contains(SEP) {
                        let w = choose|w: int|
                            0 <= w < i + 1 && (#[trigger] name@.subrange(0, i + 1)[w]) == SEP;
                        assert(pre[w] == SEP);
                    }
                }
            }
            i += 1;
        }
        proof {
            assert(name@.subrange(0, nl as int) =~= name@);
        }
        let fresh = {
            let (_, dm) = self.tree.folder(dir).unwrap();
            proof {
                assert(dir_edges_ok(self.tree.infos@, dir - 1));
            }
            dm.get(name).is_none()
        };
        if !name_ok || !fresh {
            return AddOutcome::SkippedName;
        }
        if self.tree.infos.len() as u64 >= MAX_INOS {
            return AddOutcome::Full;
        }

        let ino = self.tree.infos.len() as u64 + 1;
        let attr = match meta2attr(meta, ino) {
            None => {
                proof {
                    assert(false);
                }
                return AddOutcome::SkippedKind;
            },
            Some(a) => a,
        };
        let type_extra = match kind {
            FileKind::Directory => TypeExtra::Directory(DirMap::new()),
            FileKind::Symlink => TypeExtra::Symlink(target.unwrap()),
            _ => TypeExtra::RegularFile,
        };
        let d = (dir - 1) as usize;
        let path = join_path(&self.tree.infos[d].path, name);
        let child = FileInfo { parent: dir, path, attr, type_extra };
        let name_copy = bytes_clone(name);
        let di = &mut self.tree.infos[d];
        match &mut di.type_extra {
            TypeExtra::Directory(dm) => {
                dm.insert(name_copy, ino);
            },
            _ => {
                proof {
                    assert(false);
                }
            },
        }
        self.tree.infos.push(child);
        if matches!(kind, FileKind::Directory) {
            self.pending.push(ino);
        }
        proof {
            self.lemma_add_preserves_wf(t0, dir, name@, *meta, child);
        }
        AddOutcome::Added(ino)
    }

    /// The grown tree is still well formed: every old record and edge is
    /// untouched but for the parent's new last edge, which resolves to the
    /// new record, and the new record points back at its parent.
    proof fn lemma_add_preserves_wf(
        self,
        t0: FileTree,
        dir: u64,
        name: Seq<u8>,
        m: RawMeta,
        child: FileInfo,
    )
        requires
            t0.wf(),
            t0.contains_ino(dir),
            t0.info_of(dir).is_dir(),
            valid_name(name),
            !t0.info_of(dir).children().contains_name(name),
            t0.infos@.len() < MAX_INOS,
            child.parent == dir,
            child.path@ == path_join(t0.info_of(dir).path@, name),
            Some(child.attr) == spec_meta2attr(m, (t0.infos@.len() + 1) as u64),
            child.kind_ok(),
            child.is_dir() ==> child.children().pairs().len() == 0,
            self.tree.infos@.len() == t0.infos@.len() + 1,
            self.tree.infos@[t0.infos@.len() as int] == child,
            forall|i: int|
                0 <= i < t0.infos@.len() && i != dir - 1 ==> self.tree.infos@[i] == t0.infos@[i],
            self.tree.infos@[dir - 1].parent == t0.infos@[dir - 1].parent,
            self.tree.infos@[dir - 1].path == t0.infos@[dir - 1].path,
            self.tree.infos@[dir - 1].attr == t0.infos@[dir - 1].attr,
            self.tree.infos@[dir - 1].is_dir(),
            self.tree.infos@[dir - 1].children().pairs() == t0.infos@[dir - 1].children().pairs()
                .push((name, (t0.infos@.len() + 1) as u64)),
            self.cursor <= self.pending@.len(),
            forall|k: int|
                0 <= k < self.pending@.len() ==> {
                    &&& self.tree.contains_ino(#[trigger] self.pending@[k])
                    &&& self.tree.info_of(self.pending@[k]).is_dir()
                },
        ensures
            self.wf(),
    {
        let s0 = t0.infos@;
        let s = self.tree.infos@;
        let n0 = s0.len() as int;
        let d = dir - 1;

        assert forall|i: int| 0 <= i < s.len() implies (#[trigger] s[i]).attr.ino == i + 1 by {
            if i < n0 {
                assert(s0[i].attr.ino == i + 1);
                if i == d {
                    assert(s[i].attr == s0[i].attr);
                }
            }
        }
        assert forall|i: int| 0 <= i < s.len() implies (#[trigger] s[i]).kind_ok() by {
            if i < n0 {
                assert(s0[i].kind_ok());
                if i == d {
                    assert(s[i].attr == s0[i].attr && s[i].is_dir() && s0[i].is_dir());
                }
            }
        }
        assert(s[0].parent == 0 && s[0].path@.len() == 0 && s[0].is_dir()) by {
            if d == 0 {
                assert(s0[0].is_dir());
            }
        }
        assert forall|i: int| 1 <= i < s.len() implies #[trigger] parent_ok(s, i) by {
            if i < n0 {
                assert(parent_ok(s0, i));
                let p = s0[i].parent;
                assert(s[i].parent == p && s[i].path == s0[i].path);
                let j = choose|j: int|
                    0 <= j < s0[p - 1].children().pairs().len() && (#[trigger] s0[p
                        - 1].children().pairs()[j]).1 == i + 1 && s0[i].path@ == path_join(
                        s0[p - 1].path@,
                        s0[p - 1].children().pairs()[j].0,
                    );
                assert(s[p - 1].is_dir());
                assert(s[p - 1].children().pairs()[j] == s0[p - 1].children().pairs()[j]);
                assert(s[p - 1].path@ == s0[p - 1].path@);
                assert((s[p - 1].children().pairs()[j]).1 == i + 1 && s[i].path@ == path_join(
                    s[p - 1].path@,
                    s[p - 1].children().pairs()[j].0,
                ));
            } else {
                // the new record: its parent's last edge registers it
                let es = s[d].children().pairs();
                let j = es.len() - 1;
                assert(es[j] == (name, (n0 + 1) as u64));
                assert((#[trigger] es[j]).1 == i + 1);
                assert(s[i].path@ == path_join(s[d].path@, es[j].0));
            }
        }
        assert forall|i: int| 0 <= i < s.len() implies #[trigger] dir_edges_ok(s, i) by {
            if i == n0 {
                if s[i].is_dir() {
                    assert(s[i].children().pairs().len() == 0);
                }
            } else if i == d {
                assert(dir_edges_ok(s0, i));
                let es0 = s0[i].children().pairs();
                let es = s[i].children().pairs();
                assert forall|j: int| 0 <= j < es.len() implies edge_ok(
                    s,
                    i,
                    (#[trigger] es[j]).0,
                    es[j].1,
                ) by {
                    if j < es0.len() {
                        assert(edge_ok(s0, i, es0[j].0, es0[j].1));
                        let c = es0[j].1;
                        assert(s[c - 1].parent == s0[c - 1].parent);
                        assert(s[c - 1].path == s0[c - 1].path);
                        assert(s[i].path@ == s0[i].path@);
                    } else {
                        assert(es[j] == (name, (n0 + 1) as u64));
                    }
                }
                assert(s[i].children().names_unique()) by {
                    assert forall|j1: int, j2: int| 0 <= j1 < j2 < es.len() implies (
                    #[trigger] es[j1]).0 != (#[trigger] es[j2]).0 by {
                        if j2 < es0.len() {
                            assert(s0[i].children().names_unique());
                        } else {
                            assert(es[j2].0 == name);
                            assert(es[j1].0 == es0[j1].0);
                            if es0[j1].0 == name {
                                assert(s0[i].children().contains_name(name));
                            }
                        }
                    }
                }
            } else if i < n0 {
                assert(dir_edges_ok(s0, i));
                if s[i].is_dir() {
                    let es = s[i].children().pairs();
                    assert forall|j: int| 0 <= j < es.len() implies edge_ok(
                        s,
                        i,
                        (#[trigger] es[j]).0,
                        es[j].1,
                    ) by {
                        assert(edge_ok(s0, i, es[j].0, es[j].1));
                        let c = es[j].1;
                        assert(s[c - 1].parent == s0[c - 1].parent);
                        assert(s[c - 1].path == s0[c - 1].path);
                    }
                }
            }
        }
    }

    /// The finished, immutable tree.
    pub fn finish(self) -> (r: FileTree)
        requires
            self.wf(),
        ensures
            r.wf(),
            r == self.tree,
    {
        self.tree
    }
}

} // verus!
