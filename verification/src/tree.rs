//! The inode namespace: a dense mapping from inode numbers (1 upward) to
//! per-inode records, immutable after construction, with the structural
//! invariants that tie every child edge to its parent and back.

use vstd::prelude::*;
use crate::attr::{Attr, FileKind};

verus! {

/// Byte value of the path separator `/`.
pub const SEP: u8 = 47;

/// Upper bound on the number of inodes a tree may hold, chosen so that
/// directory-stream offsets (child index + 3) always fit in an `i64`.
pub const MAX_INOS: u64 = 0x7fff_ffff_ffff_0000;

/// A directory's name-to-child-inode map. Names are unique within one
/// directory; iteration order is insertion order.
pub struct DirMap {
    pub entries: Vec<(Vec<u8>, u64)>,
}

/// A filename admitted into a directory map: non-empty and free of the
/// path separator.
pub open spec fn valid_name(n: Seq<u8>) -> bool {
    &&& n.len() > 0
    &&& !n.contains(SEP)
}

/// Relative path of a child: the parent's relative path extended by one
/// component (the root's own path is empty).
pub open spec fn path_join(pp: Seq<u8>, n: Seq<u8>) -> Seq<u8> {
    if pp.len() == 0 {
        n
    } else {
        pp + seq![SEP] + n
    }
}

/// The maximal suffix of `p` that contains no separator.
pub open spec fn basename(p: Seq<u8>) -> Seq<u8>
    decreases p.len(),
{
    if p.len() == 0 {
        p
    } else if p.last() == SEP {
        Seq::empty()
    } else {
        basename(p.drop_last()).push(p.last())
    }
}

impl DirMap {
    /// The map as a sequence of (name, child inode) pairs.
    pub open spec fn pairs(self) -> Seq<(Seq<u8>, u64)> {
        self.entries@.map_values(|e: (Vec<u8>, u64)| (e.0@, e.1))
    }

    pub open spec fn contains_name(self, name: Seq<u8>) -> bool {
        exists|j: int| 0 <= j < self.pairs().len() && (#[trigger] self.pairs()[j]).0 == name
    }

    /// The child inode registered under `name` (meaningful only when the
    /// name is present and names are unique).
    pub open spec fn ino_for(self, name: Seq<u8>) -> u64 {
        let j = choose|j: int| 0 <= j < self.pairs().len() && (#[trigger] self.pairs()[j]).0 == name;
        self.pairs()[j].1
    }

    pub open spec fn names_unique(self) -> bool {
        forall|j1: int, j2: int|
            0 <= j1 < j2 < self.pairs().len()
                ==> (#[trigger] self.pairs()[j1]).0 != (#[trigger] self.pairs()[j2]).0
    }

    pub fn new() -> (r: DirMap)
        ensures
            r.pairs() =~= Seq::<(Seq<u8>, u64)>::empty(),
    {
        DirMap { entries: Vec::new() }
    }

    pub fn len(&self) -> (r: usize)
        ensures
            r == self.pairs().len(),
    {
        self.entries.len()
    }

    /// The `j`-th (name, child inode) pair in insertion order.
    pub fn pair_at(&self, j: usize) -> (r: (&Vec<u8>, u64))
        requires
            j < self.pairs().len(),
        ensures
            r.0@ == self.pairs()[j as int].0,
            r.1 == self.pairs()[j as int].1,
    {
        let e = &self.entries[j];
        (&e.0, e.1)
    }

    /// Name lookup: the unique child registered under `name`, if any.
    pub fn get(&self, name: &[u8]) -> (r: Option<u64>)
        requires
            self.names_unique(),
        ensures
            r == if self.contains_name(name@) {
                Some(self.ino_for(name@))
            } else {
                Option::<u64>::None
            },
    {
        let n = self.entries.len();
        let mut j: usize = 0;
        while j < n
            invariant
                n == self.pairs().len(),
                j <= n,
                self.names_unique(),
                forall|k: int| 0 <= k < j ==> (#[trigger] self.pairs()[k]).0 != name@,
            decreases n - j,
        {
            let e = &self.entries[j];
            if bytes_eq(e.0.as_slice(), name) {
                proof {
                    assert(self.pairs()[j as int].0 == name@);
                    let w = choose|w: int|
                        0 <= w < self.pairs().len() && (#[trigger] self.pairs()[w]).0 == name@;
                    if w != j {
                        assert(self.pairs()[w].0 != self.pairs()[j as int].0);
                    }
                }
                return Some(e.1);
            }
            j += 1;
        }
        None
    }

    /// Append a fresh name. The new pair comes last, keeping insertion order.
    pub fn insert(&mut self, name: Vec<u8>, child: u64)
        requires
            !old(self).contains_name(name@),
        ensures
            final(self).pairs() =~= old(self).pairs().push((name@, child)),
    {
        self.entries.push((name, child));
        proof {
            assert(self.entries@ =~= old(self).entries@.push((name, child)));
        }
    }
}

/// Byte-string equality on slices.
pub fn bytes_eq(a: &[u8], b: &[u8]) -> (r: bool)
    ensures
        r == (a@ == b@),
{
    if a.len() != b.len() {
        return false;
    }
    let n = a.len();
    let mut i: usize = 0;
    while i < n
        invariant
            n == a@.len(),
            a@.len() == b@.len(),
            i <= n,
            forall|k: int| 0 <= k < i ==> a@[k] == b@[k],
        decreases n - i,
    {
        if a[i] != b[i] {
            return false;
        }
        i += 1;
    }
    proof {
        assert(a@ =~= b@);
    }
    true
}

/// What further state an inode carries, determined by its kind.
pub enum TypeExtra {
    RegularFile,
    /// Raw bytes of the link target, captured at scan time.
    Symlink(Vec<u8>),
    /// Child filename to child inode number.
    Directory(DirMap),
}

/// The per-inode record stored in the tree.
pub struct FileInfo {
    /// Inode of the containing directory; 0 exactly for the root.
    pub parent: u64,
    /// Path relative to the remote root; empty for the root.
    pub path: Vec<u8>,
    pub attr: Attr,
    pub type_extra: TypeExtra,
}

impl FileInfo {
    pub open spec fn is_dir(self) -> bool {
        self.type_extra is Directory
    }

    pub open spec fn children(self) -> DirMap
        recommends
            self.is_dir(),
    {
        self.type_extra->Directory_0
    }

    pub open spec fn is_symlink(self) -> bool {
        self.type_extra is Symlink
    }

    pub open spec fn target(self) -> Seq<u8>
        recommends
            self.is_symlink(),
    {
        self.type_extra->Symlink_0@
    }

    /// The declared kind and the carried payload agree, and only the three
    /// supported kinds occur.
    pub open spec fn kind_ok(self) -> bool {
        match self.type_extra {
            TypeExtra::RegularFile => self.attr.kind == FileKind::RegularFile,
            TypeExtra::Symlink(_) => self.attr.kind == FileKind::Symlink,
            TypeExtra::Directory(_) => self.attr.kind == FileKind::Directory,
        }
    }
}

/// One child edge out of the directory at index `i`: the name is admissible,
/// the child exists, was numbered after its parent, points back at the
/// parent, and its path extends the parent's by exactly this name.
pub open spec fn edge_ok(s: Seq<FileInfo>, i: int, n: Seq<u8>, c: u64) -> bool {
    &&& valid_name(n)
    &&& i + 1 < c <= s.len()
    &&& s[c - 1].parent == i + 1
    &&& s[c - 1].path@ == path_join(s[i].path@, n)
}

/// All edges out of index `i` are sound and carry pairwise distinct names.
pub open spec fn dir_edges_ok(s: Seq<FileInfo>, i: int) -> bool {
    s[i].is_dir() ==> {
        let es = s[i].children().pairs();
        &&& forall|j: int| 0 <= j < es.len() ==> edge_ok(s, i, (#[trigger] es[j]).0, es[j].1)
        &&& s[i].children().names_unique()
        &&& es.len() <= s.len()
    }
}

/// The non-root record at index `i` is registered in its parent: the parent
/// is an earlier directory holding an edge to inode `i + 1` whose name is
/// the final component of this record's path.
pub open spec fn parent_ok(s: Seq<FileInfo>, i: int) -> bool {
    let p = s[i].parent;
    &&& 1 <= p <= i
    &&& s[p - 1].is_dir()
    &&& exists|j: int|
        0 <= j < s[p - 1].children().pairs().len()
            && (#[trigger] s[p - 1].children().pairs()[j]).1 == i + 1
            && s[i].path@ == path_join(s[p - 1].path@, s[p - 1].children().pairs()[j].0)
}

/// Appending separator-free bytes extends the final path component.
pub proof fn lemma_basename_append(x: Seq<u8>, n: Seq<u8>)
    requires
        !n.contains(SEP),
    ensures
        basename(x + n) == basename(x) + n,
    decreases n.len(),
{
    if n.len() == 0 {
        assert(x + n =~= x);
        assert(basename(x) + n =~= basename(x));
    } else {
        let m = n.drop_last();
        assert(!m.contains(SEP)) by {
            if m.contains(SEP) {
                let k = choose|k: int| 0 <= k < m.len() && m[k] == SEP;
                assert(n[k] == SEP);
                assert(n.contains(SEP));
            }
        }
        lemma_basename_append(x, m);
        assert(n.last() != SEP) by {
            if n.last() == SEP {
                assert(n[n.len() - 1] == SEP);
                assert(n.contains(SEP));
            }
        }
        assert((x + n).drop_last() =~= x + m);
        assert((x + n).last() == n.last());
        assert(basename(x + n) == basename(x + m).push(n.last()));
        assert((basename(x) + m).push(n.last()) =~= basename(x) + n);
    }
}

/// The final component of a joined path is exactly the appended name.
pub proof fn lemma_basename_of_join(pp: Seq<u8>, n: Seq<u8>)
    requires
        valid_name(n),
    ensures
        basename(path_join(pp, n)) == n,
{
    if pp.len() == 0 {
        lemma_basename_append(Seq::empty(), n);
        assert(Seq::<u8>::empty() + n =~= n);
        assert(basename(Seq::<u8>::empty()) + n =~= n);
    } else {
        let x = pp + seq![SEP];
        assert(x.last() == SEP);
        assert(basename(x) =~= Seq::<u8>::empty());
        lemma_basename_append(x, n);
        assert(x + n =~= path_join(pp, n));
        assert(basename(x) + n =~= n);
    }
}

/// The inode namespace: index `k` of `infos` holds inode `k + 1`.
pub struct FileTree {
    pub infos: Vec<FileInfo>,
}

impl FileTree {
    pub open spec fn s(self) -> Seq<FileInfo> {
        self.infos@
    }

    pub open spec fn contains_ino(self, ino: u64) -> bool {
        1 <= ino <= self.infos@.len()
    }

    pub open spec fn info_of(self, ino: u64) -> FileInfo
        recommends
            self.contains_ino(ino),
    {
        self.infos@[ino - 1]
    }

    /// The tree's structural invariant: inode 1 is the root directory with
    /// no parent and an empty path; every record's `attr.ino` names its own
    /// slot; kinds agree with payloads; every non-root record is registered
    /// in an earlier parent directory; and every directory edge resolves to
    /// a child that points back.
    pub open spec fn wf(self) -> bool {
        let s = self.infos@;
        &&& 1 <= s.len() <= MAX_INOS
        &&& forall|i: int| 0 <= i < s.len() ==> (#[trigger] s[i]).attr.ino == i + 1
        &&& forall|i: int| 0 <= i < s.len() ==> (#[trigger] s[i]).kind_ok()
        &&& s[0].parent == 0
        &&& s[0].path@.len() == 0
        &&& s[0].is_dir()
        &&& forall|i: int| 1 <= i < s.len() ==> #[trigger] parent_ok(s, i)
        &&& forall|i: int| 0 <= i < s.len() ==> #[trigger] dir_edges_ok(s, i)
    }

    /// Unconditional fetch of the record stored for `ino`.
    pub fn file(&self, ino: u64) -> (r: Option<&FileInfo>)
        ensures
            match r {
                Some(fi) => self.contains_ino(ino) && *fi == self.info_of(ino),
                None => !self.contains_ino(ino),
            },
    {
        if 1 <= ino && ino <= self.infos.len() as u64 {
            Some(&self.infos[(ino - 1) as usize])
        } else {
            None
        }
    }

    /// Direct attribute fetch.
    pub fn getattr(&self, ino: u64) -> (r: Option<&Attr>)
        ensures
            match r {
                Some(a) => self.contains_ino(ino) && *a == self.info_of(ino).attr,
                None => !self.contains_ino(ino),
            },
    {
        match self.file(ino) {
            None => None,
            Some(fi) => Some(&fi.attr),
        }
    }

    /// Present exactly when `ino` names a directory; hands out the record
    /// and its children map.
    pub fn folder(&self, ino: u64) -> (r: Option<(&FileInfo, &DirMap)>)
        ensures
            match r {
                Some((fi, dm)) => {
                    &&& self.contains_ino(ino)
                    &&& *fi == self.info_of(ino)
                    &&& self.info_of(ino).is_dir()
                    &&& *dm == self.info_of(ino).children()
                },
                None => !(self.contains_ino(ino) && self.info_of(ino).is_dir()),
            },
    {
        match self.file(ino) {
            None => None,
            Some(fi) => match &fi.type_extra {
                TypeExtra::Directory(dm) => Some((fi, dm)),
                _ => None,
            },
        }
    }

    /// Present exactly when `ino` names a symlink; hands out the record and
    /// the raw target bytes.
    pub fn symlink(&self, ino: u64) -> (r: Option<(&FileInfo, &Vec<u8>)>)
        ensures
            match r {
                Some((fi, t)) => {
                    &&& self.contains_ino(ino)
                    &&& *fi == self.info_of(ino)
                    &&& self.info_of(ino).is_symlink()
                    &&& t@ == self.info_of(ino).target()
                },
                None => !(self.contains_ino(ino) && self.info_of(ino).is_symlink()),
            },
    {
        match self.file(ino) {
            None => None,
            Some(fi) => match &fi.type_extra {
                TypeExtra::Symlink(t) => Some((fi, t)),
                _ => None,
            },
        }
    }

    /// What a name lookup yields: the attribute record of the child
    /// registered under `name` in directory `parent`, if all of parent,
    /// edge and child exist.
    pub open spec fn spec_lookup(self, parent: u64, name: Seq<u8>) -> Option<Attr> {
        if self.contains_ino(parent) && self.info_of(parent).is_dir()
            && self.info_of(parent).children().contains_name(name) {
            let c = self.info_of(parent).children().ino_for(name);
            if self.contains_ino(c) {
                Some(self.info_of(c).attr)
            } else {
                None
            }
        } else {
            None
        }
    }

    /// Law: every record in a well-formed tree names its own inode slot,
    /// `file(i).attr.ino == i`.
    pub proof fn lemma_attr_ino_matches(self, ino: u64)
        requires
            self.wf(),
            self.contains_ino(ino),
        ensures
            self.info_of(ino).attr.ino == ino,
    {
    }

    /// Law: every `(name, child)` edge of a directory resolves to an
    /// existing record whose `parent` is that directory.
    pub proof fn lemma_edge_child_parent(self, dino: u64, j: int)
        requires
            self.wf(),
            self.contains_ino(dino),
            self.info_of(dino).is_dir(),
            0 <= j < self.info_of(dino).children().pairs().len(),
        ensures
            self.contains_ino(self.info_of(dino).children().pairs()[j].1),
            self.info_of(self.info_of(dino).children().pairs()[j].1).parent == dino,
    {
        assert(dir_edges_ok(self.infos@, dino - 1));
    }

    /// Law: every non-root record is registered in its parent, which is a
    /// directory whose children map the final component of the record's
    /// path to the record's inode.
    pub proof fn lemma_parent_registers_child(self, ino: u64)
        requires
            self.wf(),
            self.contains_ino(ino),
            ino != 1,
        ensures
            self.contains_ino(self.info_of(ino).parent),
            self.info_of(self.info_of(ino).parent).is_dir(),
            self.info_of(self.info_of(ino).parent).children().contains_name(
                basename(self.info_of(ino).path@),
            ),
            self.info_of(self.info_of(ino).parent).children().ino_for(
                basename(self.info_of(ino).path@),
            ) == ino,
    {
        let s = self.infos@;
        let i = ino - 1;
        assert(parent_ok(s, i));
        let p = s[i].parent;
        let es = s[p - 1].children().pairs();
        let j = choose|j: int|
            0 <= j < es.len() && (#[trigger] es[j]).1 == i + 1
                && s[i].path@ == path_join(s[p - 1].path@, es[j].0);
        assert(dir_edges_ok(s, p - 1));
        assert(edge_ok(s, p - 1, es[j].0, es[j].1));
        lemma_basename_of_join(s[p - 1].path@, es[j].0);
        assert(es[j].0 == basename(s[i].path@));
        let dm = s[p - 1].children();
        assert(dm.contains_name(basename(s[i].path@)));
        let w = choose|w: int|
            0 <= w < dm.pairs().len() && (#[trigger] dm.pairs()[w]).0 == basename(s[i].path@);
        if w != j {
            assert(dm.pairs()[w].0 != dm.pairs()[j].0);
        }
        assert(dm.ino_for(basename(s[i].path@)) == ino);
    }

    /// Name lookup within a directory. `None` iff `parent` is absent, is
    /// not a directory, the name is unknown there, or the registered child
    /// inode is absent (the last is ruled out by `wf`).
    pub fn lookup(&self, parent: u64, name: &[u8]) -> (r: Option<&Attr>)
        requires
            self.wf(),
        ensures
            match r {
                Some(a) => self.spec_lookup(parent, name@) == Some(*a),
                None => self.spec_lookup(parent, name@) is None,
            },
    {
        let (_, children) = match self.folder(parent) {
            None => { return None; },
            Some(x) => x,
        };
        proof {
            assert(dir_edges_ok(self.infos@, parent - 1));
        }
        let child = match children.get(name) {
            None => { return None; },
            Some(c) => c,
        };
        match self.file(child) {
            None => None,
            Some(fi) => Some(&fi.attr),
        }
    }
}

} // verus!
