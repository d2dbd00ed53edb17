//! The dispatcher: the kernel-facing operation surface. Each operation
//! consults the immutable tree and the handle table and returns one reply.
//! The caller performs the surrounding file I/O (cache populate, descriptor
//! open, positional reads) and feeds results back in.

use vstd::prelude::*;
use crate::attr::{Attr, Errno, FileKind};
use crate::handles::{spec_bump, spec_insert, spec_release, HandleTable};
use crate::builder::bytes_clone;
use crate::tree::{dir_edges_ok, edge_ok, FileTree, MAX_INOS};

verus! {

/// Validity period, in seconds, advertised for attribute and entry replies.
pub const TTL_SECS: u64 = 120;

/// Generation number advertised on entry replies.
pub const GENERATION: u64 = 1;

/// Access-mode mask and the open flags the filter inspects (POSIX values).
pub const O_RDONLY: i32 = 0;

pub const O_WRONLY: i32 = 1;

pub const O_RDWR: i32 = 2;

pub const O_ACCMODE: i32 = 3;

pub const O_CREAT: i32 = 64;

pub const O_EXCL: i32 = 128;

pub const O_TRUNC: i32 = 512;

pub const O_APPEND: i32 = 1024;

/// The open-flags filter: unknown access-mode bits are invalid (`EINVAL`);
/// create, exclusive-create, append and truncate are rejected (`EIO`).
pub open spec fn spec_check_flags(flags: i32) -> Result<(), Errno> {
    if !((flags & O_ACCMODE) == O_RDONLY || (flags & O_ACCMODE) == O_WRONLY || (flags & O_ACCMODE)
        == O_RDWR) {
        Err(Errno::Einval)
    } else if ((flags & (O_EXCL | O_CREAT)) != 0) || ((flags & O_APPEND) == O_APPEND) || ((flags
        & O_TRUNC) == O_TRUNC) {
        Err(Errno::Eio)
    } else {
        Ok(())
    }
}

pub fn check_open_flags(flags: i32) -> (r: Result<(), Errno>)
    ensures
        r == spec_check_flags(flags),
{
    if !((flags & O_ACCMODE) == O_RDONLY || (flags & O_ACCMODE) == O_WRONLY || (flags & O_ACCMODE)
        == O_RDWR) {
        Err(Errno::Einval)
    } else if ((flags & (O_EXCL | O_CREAT)) != 0) || ((flags & O_APPEND) == O_APPEND) || ((flags
        & O_TRUNC) == O_TRUNC) {
        Err(Errno::Eio)
    } else {
        Ok(())
    }
}

/// One directory-stream entry: child inode, the offset of the following
/// entry, the child's kind, and its name.
#[derive(Debug)]
pub struct DirEntry {
    pub ino: u64,
    pub next_offset: i64,
    pub kind: FileKind,
    pub name: Vec<u8>,
}

pub open spec fn de_view(e: DirEntry) -> (u64, i64, FileKind, Seq<u8>) {
    (e.ino, e.next_offset, e.kind, e.name@)
}

/// The children listed from child index `start` on: the `j`-th child is
/// emitted with next-offset `j + 3`.
pub open spec fn spec_kids(t: FileTree, ino: u64, start: int) -> Seq<(u64, i64, FileKind, Seq<u8>)> {
    let es = t.info_of(ino).children().pairs();
    if start >= es.len() {
        Seq::empty()
    } else {
        Seq::new(
            (es.len() - start) as nat,
            |j: int|
                (
                    es[start + j].1,
                    (start + j + 3) as i64,
                    t.info_of(es[start + j].1).attr.kind,
                    es[start + j].0,
                ),
        )
    }
}

/// The full directory stream from `offset`: `.` at offset 0, `..` at
/// offsets up to 1, then the children from index `max(offset - 2, 0)`.
/// `EIO` when `ino` does not name a directory.
pub open spec fn spec_readdir(t: FileTree, ino: u64, offset: i64) -> Result<
    Seq<(u64, i64, FileKind, Seq<u8>)>,
    Errno,
> {
    if !(t.contains_ino(ino) && t.info_of(ino).is_dir()) {
        Err(Errno::Eio)
    } else {
        let start: int = if offset <= 1 {
            0
        } else {
            offset - 2
        };
        let kids = spec_kids(t, ino, start);
        let with_dotdot = if offset <= 1 {
            seq![
                (t.info_of(ino).parent, 2i64, FileKind::Directory, seq![46u8, 46u8]),
            ] + kids
        } else {
            kids
        };
        Ok(
            if offset == 0 {
                seq![(ino, 1i64, FileKind::Directory, seq![46u8])] + with_dotdot
            } else {
                with_dotdot
            },
        )
    }
}

/// What `open_begin` decided.
#[derive(Debug)]
pub enum OpenStep {
    /// The flag filter rejected the request.
    Rejected(Errno),
    /// A handle already existed: its count was bumped; reply `(ino, 0)`.
    Reused,
    /// No handle and no record: `ENOENT`.
    Unknown,
    /// The record exists at this relative path: the caller must make the
    /// cache file present, open it, and call `open_finish`.
    Populate(Vec<u8>),
}

/// The dispatcher's verified state: the immutable tree and the handle
/// table. The descriptor type `D` is the caller's; nothing looks inside it.
pub struct CacheFs<D> {
    pub tree: FileTree,
    pub handles: HandleTable<D>,
}

impl<D> CacheFs<D> {
    pub open spec fn wf(self) -> bool {
        &&& self.tree.wf()
        &&& self.handles.wf()
    }

    pub fn new(tree: FileTree) -> (r: CacheFs<D>)
        requires
            tree.wf(),
        ensures
            r.wf(),
            r.tree == tree,
            r.handles.m() =~= Map::<u64, (D, u64)>::empty(),
    {
        CacheFs { tree, handles: HandleTable::new() }
    }

    /// Name lookup: the child's attributes with TTL and generation on a
    /// hit, `ENOENT` on a miss.
    pub fn lookup(&self, parent: u64, name: &[u8]) -> (r: Result<(Attr, u64, u64), Errno>)
        requires
            self.wf(),
        ensures
            match r {
                Ok((a, ttl, gen)) => self.tree.spec_lookup(parent, name@) == Some(a) && ttl
                    == TTL_SECS && gen == GENERATION,
                Err(e) => e == Errno::Enoent && self.tree.spec_lookup(parent, name@) is None,
            },
    {
        match self.tree.lookup(parent, name) {
            None => Err(Errno::Enoent),
            Some(attr) => Ok((*attr, TTL_SECS, GENERATION)),
        }
    }

    /// Attribute fetch: the attributes with TTL on a hit, `ENOENT` on a miss.
    pub fn getattr(&self, ino: u64) -> (r: Result<(Attr, u64), Errno>)
        requires
            self.wf(),
        ensures
            match r {
                Ok((a, ttl)) => self.tree.contains_ino(ino) && a == self.tree.info_of(ino).attr
                    && ttl == TTL_SECS,
                Err(e) => e == Errno::Enoent && !self.tree.contains_ino(ino),
            },
    {
        match self.tree.getattr(ino) {
            None => Err(Errno::Enoent),
            Some(attr) => Ok((*attr, TTL_SECS)),
        }
    }

    /// Open a directory stream: succeeds iff the inode exists; the inode is
    /// reused as the handle, with zero open-flags. No state is allocated.
    pub fn opendir(&self, ino: u64, _flags: i32) -> (r: Result<(u64, u32), Errno>)
        requires
            self.wf(),
        ensures
            match r {
                Ok((fh, fl)) => self.tree.contains_ino(ino) && fh == ino && fl == 0,
                Err(e) => e == Errno::Enoent && !self.tree.contains_ino(ino),
            },
    {
        match self.tree.getattr(ino) {
            None => Err(Errno::Enoent),
            Some(attr) => Ok((attr.ino, 0)),
        }
    }

    /// The directory stream from `offset`, in order; `EIO` when `ino` is
    /// not a directory. The caller hands entries to the reply buffer until
    /// it rejects one.
    pub fn readdir(&self, ino: u64, offset: i64) -> (r: Result<Vec<DirEntry>, Errno>)
        requires
            self.wf(),
        ensures
            match r {
                Ok(v) => spec_readdir(self.tree, ino, offset) == Ok::<_, Errno>(
                    v@.map_values(|e: DirEntry| de_view(e)),
                ),
                Err(e) => spec_readdir(self.tree, ino, offset) == Err::<
                    Seq<(u64, i64, FileKind, Seq<u8>)>,
                    _,
                >(e),
            },
    {
        let (dir, dm) = match self.tree.folder(ino) {
            None => { return Err(Errno::Eio); },
            Some(x) => x,
        };
        proof {
            assert(dir_edges_ok(self.tree.infos@, ino - 1));
        }
        let ghost target = spec_readdir(self.tree, ino, offset)->Ok_0;
        let mut out: Vec<DirEntry> = Vec::new();
        if offset == 0 {
            let mut dot: Vec<u8> = Vec::new();
            dot.push(46);
            proof {
                assert(dot@ =~= seq![46u8]);
            }
            out.push(DirEntry { ino, next_offset: 1, kind: FileKind::Directory, name: dot });
        }
        if offset <= 1 {
            let mut dotdot: Vec<u8> = Vec::new();
            dotdot.push(46);
            dotdot.push(46);
            proof {
                assert(dotdot@ =~= seq![46u8, 46u8]);
            }
            out.push(
                DirEntry { ino: dir.parent, next_offset: 2, kind: FileKind::Directory, name: dotdot },
            );
        }
        let ghost dots = out@.len() as int;
        let n = dm.len();
        let start: usize = if offset <= 1 {
            0
        } else {
            let o = offset - 2;
            if o >= n as i64 {
                n
            } else {
                o as usize
            }
        };
        proof {
            if offset == 0 {
                assert(target[0] == (ino, 1i64, FileKind::Directory, seq![46u8]));
                assert(target[1] == (
                    self.tree.info_of(ino).parent,
                    2i64,
                    FileKind::Directory,
                    seq![46u8, 46u8],
                ));
                assert(de_view(out@[0]) == target[0]);
                assert(de_view(out@[1]) == target[1]);
            } else if offset <= 1 {
                assert(target[0] == (
                    self.tree.info_of(ino).parent,
                    2i64,
                    FileKind::Directory,
                    seq![46u8, 46u8],
                ));
                assert(de_view(out@[0]) == target[0]);
            }
            assert(out@.map_values(|e: DirEntry| de_view(e)) =~= target.subrange(0, dots));
            if (start as int) < dm.pairs().len() {
                assert(target.len() - dots == dm.pairs().len() - start);
            } else {
                assert(target =~= target.subrange(0, dots));
            }
        }
        let mut j = start;
        while j < n
            invariant
                self.wf(),
                self.tree.contains_ino(ino),
                self.tree.info_of(ino).is_dir(),
                dm == self.tree.info_of(ino).children(),
                n == dm.pairs().len(),
                start <= j <= n,
                target == spec_readdir(self.tree, ino, offset)->Ok_0,
                spec_readdir(self.tree, ino, offset) is Ok,
                dots + n - start == target.len(),
                out@.len() == dots + j - start,
                out@.map_values(|e: DirEntry| de_view(e)) =~= target.subrange(
                    0,
                    dots + j - start,
                ),
            decreases n - j,
        {
            proof {
                assert(dir_edges_ok(self.tree.infos@, ino - 1));
                assert(edge_ok(
                    self.tree.infos@,
                    ino - 1,
                    dm.pairs()[j as int].0,
                    dm.pairs()[j as int].1,
                ));
            }
            let (name, child) = dm.pair_at(j);
            let fi = match self.tree.file(child) {
                None => {
                    proof {
                        assert(false);
                    }
                    return Err(Errno::Eio);
                },
                Some(fi) => fi,
            };
            let e = DirEntry {
                ino: child,
                next_offset: (j as i64) + 3,
                kind: fi.attr.kind,
                name: bytes_clone(name.as_slice()),
            };
            let ghost prev = out@;
            out.push(e);
            proof {
                assert(out@.map_values(|e: DirEntry| de_view(e)) =~= prev.map_values(
                    |e: DirEntry| de_view(e),
                ).push(de_view(e)));
                assert(target[dots + j - start] == de_view(e));
                assert(out@.map_values(|e: DirEntry| de_view(e)) =~= target.subrange(
                    0,
                    dots + j + 1 - start,
                ));
            }
            j += 1;
        }
        proof {
            assert(target.subrange(0, target.len() as int) =~= target);
        }
        Ok(out)
    }

    /// Close a directory stream: ok iff the inode exists, `EIO` otherwise.
    pub fn releasedir(&self, ino: u64, _fh: u64, _flags: i32) -> (r: Result<(), Errno>)
        requires
            self.wf(),
        ensures
            match r {
                Ok(()) => self.tree.contains_ino(ino),
                Err(e) => e == Errno::Eio && !self.tree.contains_ino(ino),
            },
    {
        match self.tree.file(ino) {
            None => Err(Errno::Eio),
            Some(_) => Ok(()),
        }
    }

    /// The raw target bytes of a symlink; `ENOENT` when `ino` is absent or
    /// not a symlink.
    pub fn readlink(&self, ino: u64) -> (r: Result<Vec<u8>, Errno>)
        requires
            self.wf(),
        ensures
            match r {
                Ok(v) => self.tree.contains_ino(ino) && self.tree.info_of(ino).is_symlink() && v@
                    == self.tree.info_of(ino).target(),
                Err(e) => e == Errno::Enoent && !(self.tree.contains_ino(ino)
                    && self.tree.info_of(ino).is_symlink()),
            },
    {
        match self.tree.symlink(ino) {
            None => Err(Errno::Enoent),
            Some((_, t)) => Ok(bytes_clone(t.as_slice())),
        }
    }

    /// The open path up to the point where file I/O would start: filter the
    /// flags, coalesce onto an existing handle, resolve the inode, and
    /// otherwise hand back the record's relative path for the caller to
    /// populate and open; `open_finish` completes that case.
    pub fn open_begin(&mut self, ino: u64, flags: i32) -> (r: OpenStep)
        requires
            old(self).wf(),
            old(self).handles.m().contains_key(ino) ==> old(self).handles.m()[ino].1 < u64::MAX,
        ensures
            final(self).wf(),
            final(self).tree == old(self).tree,
            match r {
                OpenStep::Rejected(e) => spec_check_flags(flags) == Err::<(), Errno>(e)
                    && *final(self) == *old(self),
                OpenStep::Reused => {
                    &&& spec_check_flags(flags) is Ok
                    &&& old(self).handles.m().contains_key(ino)
                    &&& final(self).handles.m() == spec_bump(old(self).handles.m(), ino)
                },
                OpenStep::Unknown => {
                    &&& spec_check_flags(flags) is Ok
                    &&& !old(self).handles.m().contains_key(ino)
                    &&& !old(self).tree.contains_ino(ino)
                    &&& *final(self) == *old(self)
                },
                OpenStep::Populate(p) => {
                    &&& spec_check_flags(flags) is Ok
                    &&& !old(self).handles.m().contains_key(ino)
                    &&& old(self).tree.contains_ino(ino)
                    &&& p@ == old(self).tree.info_of(ino).path@
                    &&& *final(self) == *old(self)
                },
            },
    {
        if let Err(e) = check_open_flags(flags) {
            return OpenStep::Rejected(e);
        }
        if self.handles.bump(ino) {
            return OpenStep::Reused;
        }
        match self.tree.file(ino) {
            None => OpenStep::Unknown,
            Some(fi) => OpenStep::Populate(bytes_clone(fi.path.as_slice())),
        }
    }

    /// Install the freshly opened cache descriptor with count 1; the reply
    /// is `(ino, 0)`.
    pub fn open_finish(&mut self, ino: u64, d: D) -> (r: (u64, u32))
        requires
            old(self).wf(),
            !old(self).handles.m().contains_key(ino),
        ensures
            final(self).wf(),
            final(self).tree == old(self).tree,
            final(self).handles.m() == spec_insert(old(self).handles.m(), ino, d),
            r == (ino, 0u32),
    {
        self.handles.insert(ino, d);
        (ino, 0)
    }

    /// Whether a read may proceed on this handle (`EIO` otherwise).
    pub fn read_check(&self, fh: u64) -> (r: Result<(), Errno>)
        requires
            self.wf(),
        ensures
            match r {
                Ok(()) => self.handles.m().contains_key(fh),
                Err(e) => e == Errno::Eio && !self.handles.m().contains_key(fh),
            },
    {
        if self.handles.contains(fh) {
            Ok(())
        } else {
            Err(Errno::Eio)
        }
    }

    /// Borrow the cache descriptor held for `fh`.
    pub fn handle(&self, fh: u64) -> (r: Option<&D>)
        requires
            self.wf(),
        ensures
            match r {
                Some(d) => self.handles.m().contains_key(fh) && *d == self.handles.m()[fh].0,
                None => !self.handles.m().contains_key(fh),
            },
    {
        self.handles.get(fh)
    }

    /// One release of `fh`: drop the handle when the count reaches zero,
    /// `EIO` when no handle is held.
    pub fn release(&mut self, fh: u64) -> (r: Result<(), Errno>)
        requires
            old(self).wf(),
        ensures
            final(self).wf(),
            final(self).tree == old(self).tree,
            match r {
                Ok(()) => old(self).handles.m().contains_key(fh) && final(self).handles.m()
                    == spec_release(old(self).handles.m(), fh),
                Err(e) => e == Errno::Eio && !old(self).handles.m().contains_key(fh)
                    && *final(self) == *old(self),
            },
    {
        if self.handles.release(fh) {
            Ok(())
        } else {
            Err(Errno::Eio)
        }
    }
}

/// The positional-read loop's state: a buffer of the requested size being
/// filled front to back; a zero-length transfer marks end of file and
/// truncates to what was read.
pub struct ReadBuf {
    pub buf: Vec<u8>,
    pub size: usize,
    pub filled: usize,
    pub eof: bool,
    pub done: bool,
}

impl ReadBuf {
    pub open spec fn wf(self) -> bool {
        &&& self.filled <= self.buf@.len() <= self.size
        &&& (!self.eof ==> self.buf@.len() == self.size)
        &&& (self.eof ==> self.buf@.len() == self.filled)
        &&& self.done == (self.eof || self.filled == self.size)
    }

    /// A read of `size` bytes about to start; a zero-size read is complete
    /// at once with an empty result.
    pub fn new(size: usize) -> (r: ReadBuf)
        ensures
            r.wf(),
            r.size == size,
            r.filled == 0,
            !r.eof,
            r.done == (size == 0),
            r.buf@ =~= Seq::new(size as nat, |i: int| 0u8),
    {
        let mut buf: Vec<u8> = Vec::new();
        buf.resize(size, 0u8);
        proof {
            assert(buf@ =~= Seq::new(size as nat, |i: int| 0u8));
        }
        ReadBuf { buf, size, filled: 0, eof: false, done: size == 0 }
    }

    /// Account one positional read that transferred `n` bytes at position
    /// `filled`: zero marks end of file and truncates the buffer; otherwise
    /// the fill point advances, and the read is done when the buffer is full.
    pub fn advance(&mut self, n: usize) -> (r: bool)
        requires
            old(self).wf(),
            !old(self).done,
            n <= old(self).size - old(self).filled,
        ensures
            final(self).wf(),
            final(self).size == old(self).size,
            r == final(self).done,
            n == 0 ==> {
                &&& final(self).eof
                &&& final(self).done
                &&& final(self).filled == old(self).filled
                &&& final(self).buf@ == old(self).buf@.subrange(0, old(self).filled as int)
            },
            n > 0 ==> {
                &&& !final(self).eof
                &&& final(self).filled == old(self).filled + n
                &&& final(self).buf@ == old(self).buf@
                &&& final(self).done == (final(self).filled == final(self).size)
            },
    {
        if n == 0 {
            self.buf.truncate(self.filled);
            self.eof = true;
            self.done = true;
        } else {
            self.filled = self.filled + n;
            if self.filled == self.size {
                self.done = true;
            }
        }
        self.done
    }

    /// Law: a completed read either returns exactly the requested number of
    /// bytes, or it hit end of file and returns exactly the bytes read up
    /// to that point (a short read happens only at end of file).
    pub proof fn lemma_read_completion(self)
        requires
            self.wf(),
            self.done,
        ensures
            self.buf@.len() == self.size || (self.eof && self.buf@.len() == self.filled
                && self.buf@.len() < self.size),
    {
    }
}

} // verus!
