//! The metadata codec: native stat-like records reduced to plain values,
//! and their conversion into the attribute record stored for each inode.

use vstd::prelude::*;

verus! {

/// The kind of a filesystem entry. Only `RegularFile`, `Directory` and
/// `Symlink` are ever produced by the scanner; the rest are reserved.
#[derive(Clone, Copy, PartialEq, Eq, Structural, Debug)]
pub enum FileKind {
    NamedPipe,
    CharDevice,
    BlockDevice,
    Directory,
    RegularFile,
    Symlink,
    Socket,
}

/// An absolute instant: seconds and nanoseconds since the Unix epoch.
#[derive(Clone, Copy, PartialEq, Eq, Structural, Debug)]
pub struct TimeSpec {
    pub secs: u64,
    pub nanos: u32,
}

/// The attribute record describing one inode.
#[derive(Clone, Copy, PartialEq, Eq, Structural, Debug)]
pub struct Attr {
    pub ino: u64,
    pub size: u64,
    pub blocks: u64,
    pub atime: TimeSpec,
    pub mtime: TimeSpec,
    pub ctime: TimeSpec,
    pub crtime: TimeSpec,
    pub kind: FileKind,
    pub perm: u16,
    pub nlink: u32,
    pub uid: u32,
    pub gid: u32,
    pub rdev: u32,
    pub flags: u32,
    pub blksize: u32,
}

/// A native metadata record reduced to plain values. The scanner reads one
/// of these for each directory entry it visits.
#[derive(Clone, Copy, PartialEq, Eq, Structural, Debug)]
pub struct RawMeta {
    pub is_symlink: bool,
    pub is_dir: bool,
    pub is_file: bool,
    pub size: u64,
    pub blocks: u64,
    pub atime: Option<TimeSpec>,
    pub mtime: Option<TimeSpec>,
    pub crtime: Option<TimeSpec>,
    pub ctime_secs: i64,
    pub mode: u32,
    pub nlink: u64,
    pub uid: u32,
    pub gid: u32,
    pub rdev: u64,
    pub blksize: u64,
}

/// The kind of an entry: symlink-ness is tested first, then directory-ness,
/// then regular-file-ness; anything else is a filter signal (`None`).
pub open spec fn spec_kind_of(m: RawMeta) -> Option<FileKind> {
    if m.is_symlink {
        Some(FileKind::Symlink)
    } else if m.is_dir {
        Some(FileKind::Directory)
    } else if m.is_file {
        Some(FileKind::RegularFile)
    } else {
        None
    }
}

pub fn kind_of(m: &RawMeta) -> (r: Option<FileKind>)
    ensures
        r == spec_kind_of(*m),
{
    if m.is_symlink {
        Some(FileKind::Symlink)
    } else if m.is_dir {
        Some(FileKind::Directory)
    } else if m.is_file {
        Some(FileKind::RegularFile)
    } else {
        None
    }
}

/// `ctime` seconds come from the platform as a signed count; negative values
/// collapse to the epoch.
pub open spec fn spec_ctime_of(secs: i64) -> TimeSpec {
    TimeSpec { secs: if secs >= 0 { secs as u64 } else { 0u64 }, nanos: 0u32 }
}

/// The attribute record derived from a native metadata record and the inode
/// number chosen for the entry. `None` exactly when the entry's kind is not
/// one of the three supported kinds.
pub open spec fn spec_meta2attr(m: RawMeta, ino: u64) -> Option<Attr> {
    match spec_kind_of(m) {
        None => None,
        Some(kind) => Some(Attr {
            ino,
            size: m.size,
            blocks: m.blocks,
            atime: if m.atime is Some { m.atime->0 } else { TimeSpec { secs: 0, nanos: 0 } },
            mtime: if m.mtime is Some { m.mtime->0 } else { TimeSpec { secs: 0, nanos: 0 } },
            ctime: spec_ctime_of(m.ctime_secs),
            crtime: if m.crtime is Some { m.crtime->0 } else { TimeSpec { secs: 0, nanos: 0 } },
            kind,
            perm: (m.mode & 0xffff) as u16,
            nlink: (m.nlink & 0xffff_ffff) as u32,
            uid: m.uid,
            gid: m.gid,
            rdev: (m.rdev & 0xffff_ffff) as u32,
            flags: 0u32,
            blksize: (m.blksize & 0xffff_ffff) as u32,
        }),
    }
}

/// The metadata codec: one pure conversion from a native record and an inode
/// number to an `Attr`. Missing timestamps default to the epoch; `flags` is
/// always zero; wide platform counters are truncated to the record's widths.
pub fn meta2attr(m: &RawMeta, ino: u64) -> (r: Option<Attr>)
    ensures
        r == spec_meta2attr(*m, ino),
{
    let kind = match kind_of(m) {
        None => { return None; },
        Some(k) => k,
    };
    let epoch = TimeSpec { secs: 0, nanos: 0 };
    Some(Attr {
        ino,
        size: m.size,
        blocks: m.blocks,
        atime: match m.atime { Some(t) => t, None => epoch },
        mtime: match m.mtime { Some(t) => t, None => epoch },
        ctime: TimeSpec { secs: if m.ctime_secs >= 0 { m.ctime_secs as u64 } else { 0u64 }, nanos: 0u32 },
        crtime: match m.crtime { Some(t) => t, None => epoch },
        kind,
        perm: (m.mode & 0xffff) as u16,
        nlink: (m.nlink & 0xffff_ffff) as u32,
        uid: m.uid,
        gid: m.gid,
        rdev: (m.rdev & 0xffff_ffff) as u32,
        flags: 0u32,
        blksize: (m.blksize & 0xffff_ffff) as u32,
    })
}

/// POSIX error numbers surfaced on the transport.
#[derive(Clone, Copy, PartialEq, Eq, Structural, Debug)]
pub enum Errno {
    Eperm,
    Enoent,
    Einval,
    Eio,
}

impl Errno {
    /// The numeric value handed to the kernel transport.
    pub fn code(&self) -> (r: i32)
        ensures
            r == match *self {
                Errno::Eperm => 1i32,
                Errno::Enoent => 2i32,
                Errno::Einval => 22i32,
                Errno::Eio => 5i32,
            },
    {
        match *self {
            Errno::Eperm => 1,
            Errno::Enoent => 2,
            Errno::Einval => 22,
            Errno::Eio => 5,
        }
    }
}

/// An I/O error reduced to the classes the error mapping distinguishes.
#[derive(Clone, Copy, PartialEq, Eq, Structural, Debug)]
pub enum IoErrorClass {
    PermissionDenied,
    NotFound,
    Other,
}

/// The error mapping: permission-denied surfaces as `EPERM`, not-found as
/// `ENOENT`, and every other I/O error kind as `EIO`.
pub fn errhandle(e: IoErrorClass) -> (r: Errno)
    ensures
        r == match e {
            IoErrorClass::PermissionDenied => Errno::Eperm,
            IoErrorClass::NotFound => Errno::Enoent,
            IoErrorClass::Other => Errno::Eio,
        },
{
    match e {
        IoErrorClass::PermissionDenied => Errno::Eperm,
        IoErrorClass::NotFound => Errno::Enoent,
        IoErrorClass::Other => Errno::Eio,
    }
}

} // verus!
