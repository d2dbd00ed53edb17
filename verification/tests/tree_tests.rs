use cachefs::attr::{errhandle, meta2attr, Errno, FileKind, IoErrorClass, RawMeta, TimeSpec};
use cachefs::builder::{AddOutcome, TreeBuilder};
use cachefs::tree::FileTree;

pub fn raw_dir() -> RawMeta {
    RawMeta {
        is_symlink: false,
        is_dir: true,
        is_file: false,
        size: 0,
        blocks: 0,
        atime: None,
        mtime: None,
        crtime: None,
        ctime_secs: 100,
        mode: 0o755,
        nlink: 2,
        uid: 1000,
        gid: 1000,
        rdev: 0,
        blksize: 4096,
    }
}

pub fn raw_file(size: u64) -> RawMeta {
    RawMeta {
        is_symlink: false,
        is_dir: false,
        is_file: true,
        size,
        blocks: 1,
        atime: Some(TimeSpec { secs: 10, nanos: 1 }),
        mtime: Some(TimeSpec { secs: 20, nanos: 2 }),
        crtime: Some(TimeSpec { secs: 30, nanos: 3 }),
        ctime_secs: 40,
        mode: 0o644,
        nlink: 1,
        uid: 1000,
        gid: 1000,
        rdev: 0,
        blksize: 4096,
    }
}

pub fn raw_link() -> RawMeta {
    RawMeta { is_symlink: true, is_dir: false, is_file: false, ..raw_file(5) }
}

/// The sample remote tree: `a.txt` (6 bytes) and `dir/` holding `b.bin`
/// (256 bytes) and `link -> b.bin`.
pub fn sample_tree() -> FileTree {
    let mut b = TreeBuilder::new(&raw_dir()).expect("root must be a directory");
    assert_eq!(b.next_dir(), Some(1));
    assert_eq!(b.add_entry(1, b"a.txt", &raw_file(6), None), AddOutcome::Added(2));
    assert_eq!(b.add_entry(1, b"dir", &raw_dir(), None), AddOutcome::Added(3));
    assert_eq!(b.next_dir(), Some(3));
    assert_eq!(b.add_entry(3, b"b.bin", &raw_file(256), None), AddOutcome::Added(4));
    assert_eq!(
        b.add_entry(3, b"link", &raw_link(), Some(b"b.bin".to_vec())),
        AddOutcome::Added(5)
    );
    assert_eq!(b.next_dir(), None);
    b.finish()
}

#[test]
fn meta2attr_kind_precedence_and_defaults() {
    // symlink-ness wins over directory-ness and file-ness
    let mut m = raw_dir();
    m.is_symlink = true;
    let a = meta2attr(&m, 7).unwrap();
    assert_eq!(a.kind, FileKind::Symlink);
    assert_eq!(a.ino, 7);
    // missing timestamps default to the epoch; ctime comes from the seconds
    assert_eq!(a.atime, TimeSpec { secs: 0, nanos: 0 });
    assert_eq!(a.ctime, TimeSpec { secs: 100, nanos: 0 });
    assert_eq!(a.flags, 0);
    assert_eq!(a.perm, 0o755);
}

#[test]
fn meta2attr_negative_ctime_collapses_to_epoch() {
    let mut m = raw_file(1);
    m.ctime_secs = -5;
    let a = meta2attr(&m, 1).unwrap();
    assert_eq!(a.ctime, TimeSpec { secs: 0, nanos: 0 });
}

#[test]
fn meta2attr_unsupported_kind_is_filtered() {
    let mut m = raw_file(1);
    m.is_file = false;
    assert!(meta2attr(&m, 1).is_none());
}

#[test]
fn meta2attr_truncates_wide_counters() {
    let mut m = raw_file(1);
    m.mode = 0xabcd_ef01;
    m.nlink = 0x1_0000_0003;
    let a = meta2attr(&m, 1).unwrap();
    assert_eq!(a.perm, 0xef01);
    assert_eq!(a.nlink, 3);
}

#[test]
fn errno_codes_and_error_mapping() {
    assert_eq!(errhandle(IoErrorClass::PermissionDenied), Errno::Eperm);
    assert_eq!(errhandle(IoErrorClass::NotFound), Errno::Enoent);
    assert_eq!(errhandle(IoErrorClass::Other), Errno::Eio);
    assert_eq!(Errno::Eperm.code(), 1);
    assert_eq!(Errno::Enoent.code(), 2);
    assert_eq!(Errno::Eio.code(), 5);
    assert_eq!(Errno::Einval.code(), 22);
}

#[test]
fn builder_assigns_dense_inodes_breadth_first() {
    let t = sample_tree();
    // every inode names its own slot
    for ino in 1..=5u64 {
        let fi = t.file(ino).unwrap();
        assert_eq!(fi.attr.ino, ino);
    }
    assert!(t.file(6).is_none());
    assert!(t.file(0).is_none());
    // each child's parent points back
    assert_eq!(t.file(2).unwrap().parent, 1);
    assert_eq!(t.file(3).unwrap().parent, 1);
    assert_eq!(t.file(4).unwrap().parent, 3);
    assert_eq!(t.file(5).unwrap().parent, 3);
    // relative paths extend the parent's
    assert_eq!(t.file(4).unwrap().path, b"dir/b.bin".to_vec());
    assert_eq!(t.file(1).unwrap().path, Vec::<u8>::new());
}

#[test]
fn builder_skips_bad_entries() {
    let mut b = TreeBuilder::new(&raw_dir()).unwrap();
    assert_eq!(b.next_dir(), Some(1));
    let mut other = raw_file(1);
    other.is_file = false;
    assert_eq!(b.add_entry(1, b"sock", &other, None), AddOutcome::SkippedKind);
    assert_eq!(b.add_entry(1, b"bad", &raw_link(), None), AddOutcome::SkippedTarget);
    assert_eq!(b.add_entry(1, b"", &raw_file(1), None), AddOutcome::SkippedName);
    assert_eq!(b.add_entry(1, b"a/b", &raw_file(1), None), AddOutcome::SkippedName);
    assert_eq!(b.add_entry(1, b"x", &raw_file(1), None), AddOutcome::Added(2));
    assert_eq!(b.add_entry(1, b"x", &raw_file(2), None), AddOutcome::SkippedName);
    let t = b.finish();
    assert_eq!(t.infos.len(), 2);
}

#[test]
fn builder_rejects_non_directory_root() {
    assert!(TreeBuilder::new(&raw_file(1)).is_none());
}

#[test]
fn tree_queries_answer_by_kind() {
    let t = sample_tree();
    // folder only on directories
    assert!(t.folder(1).is_some());
    assert!(t.folder(3).is_some());
    assert!(t.folder(2).is_none());
    assert!(t.folder(5).is_none());
    // symlink only on symlinks
    assert!(t.symlink(5).is_some());
    assert!(t.symlink(4).is_none());
    let (_, target) = t.symlink(5).unwrap();
    assert_eq!(target, &b"b.bin".to_vec());
    // getattr on everything present
    assert_eq!(t.getattr(4).unwrap().size, 256);
    assert!(t.getattr(9).is_none());
    // lookup resolves names within a directory
    let a = t.lookup(1, b"a.txt").unwrap();
    assert_eq!(a.ino, 2);
    assert_eq!(a.kind, FileKind::RegularFile);
    assert!(t.lookup(1, b"b.bin").is_none());
    assert!(t.lookup(3, b"b.bin").is_some());
    assert!(t.lookup(2, b"a.txt").is_none());
    // the parent directory registers each child under its final component
    let (_, children) = t.folder(1).unwrap();
    assert_eq!(children.get(b"a.txt"), Some(2));
    assert_eq!(children.get(b"dir"), Some(3));
    assert_eq!(children.get(b"missing"), None);
}
