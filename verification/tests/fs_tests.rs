use cachefs::attr::{Errno, FileKind, RawMeta, TimeSpec};
use cachefs::builder::{AddOutcome, TreeBuilder};
use cachefs::fs::{
    check_open_flags, CacheFs, OpenStep, ReadBuf, GENERATION, O_APPEND, O_CREAT, O_RDONLY, O_RDWR,
    O_TRUNC, O_WRONLY, TTL_SECS,
};
use cachefs::tree::FileTree;

fn raw_dir() -> RawMeta {
    RawMeta {
        is_symlink: false,
        is_dir: true,
        is_file: false,
        size: 0,
        blocks: 0,
        atime: None,
        mtime: None,
        crtime: None,
        ctime_secs: 100,
        mode: 0o755,
        nlink: 2,
        uid: 1000,
        gid: 1000,
        rdev: 0,
        blksize: 4096,
    }
}

fn raw_file(size: u64) -> RawMeta {
    RawMeta {
        is_symlink: false,
        is_dir: false,
        is_file: true,
        size,
        blocks: 1,
        atime: Some(TimeSpec { secs: 10, nanos: 1 }),
        mtime: Some(TimeSpec { secs: 20, nanos: 2 }),
        crtime: Some(TimeSpec { secs: 30, nanos: 3 }),
        ctime_secs: 40,
        mode: 0o644,
        nlink: 1,
        uid: 1000,
        gid: 1000,
        rdev: 0,
        blksize: 4096,
    }
}

fn raw_link() -> RawMeta {
    RawMeta { is_symlink: true, is_dir: false, is_file: false, ..raw_file(5) }
}

fn sample_tree() -> FileTree {
    let mut b = TreeBuilder::new(&raw_dir()).unwrap();
    assert_eq!(b.next_dir(), Some(1));
    assert_eq!(b.add_entry(1, b"a.txt", &raw_file(6), None), AddOutcome::Added(2));
    assert_eq!(b.add_entry(1, b"dir", &raw_dir(), None), AddOutcome::Added(3));
    assert_eq!(b.next_dir(), Some(3));
    assert_eq!(b.add_entry(3, b"b.bin", &raw_file(256), None), AddOutcome::Added(4));
    assert_eq!(
        b.add_entry(3, b"link", &raw_link(), Some(b"b.bin".to_vec())),
        AddOutcome::Added(5)
    );
    assert_eq!(b.next_dir(), None);
    b.finish()
}

fn sample_fs() -> CacheFs<u32> {
    CacheFs::new(sample_tree())
}

#[test]
fn open_flags_reject_create_combination_with_eio() {
    // O_WRONLY | O_CREAT is a rejected flag combination
    assert_eq!(check_open_flags(O_WRONLY | O_CREAT), Err(Errno::Eio));
    assert_eq!(check_open_flags(O_RDONLY | O_APPEND), Err(Errno::Eio));
    assert_eq!(check_open_flags(O_RDONLY | O_TRUNC), Err(Errno::Eio));
}

#[test]
fn open_flags_reject_unknown_access_mode_with_einval() {
    assert_eq!(check_open_flags(3), Err(Errno::Einval));
    assert_eq!(check_open_flags(O_RDONLY), Ok(()));
    assert_eq!(check_open_flags(O_WRONLY), Ok(()));
    assert_eq!(check_open_flags(O_RDWR), Ok(()));
}

#[test]
fn cold_lookup_hits_and_misses() {
    let fs = sample_fs();
    let (attr, ttl, gen) = fs.lookup(1, b"a.txt").unwrap();
    assert_eq!(attr.kind, FileKind::RegularFile);
    assert_eq!(attr.size, 6);
    assert_eq!(ttl, TTL_SECS);
    assert_eq!(ttl, 120);
    assert_eq!(gen, GENERATION);
    assert_eq!(fs.lookup(1, b"missing"), Err(Errno::Enoent));
}

#[test]
fn getattr_and_opendir_and_releasedir() {
    let fs = sample_fs();
    let (attr, ttl) = fs.getattr(4).unwrap();
    assert_eq!(attr.size, 256);
    assert_eq!(ttl, 120);
    assert_eq!(fs.getattr(9), Err(Errno::Enoent));
    assert_eq!(fs.opendir(3, 0), Ok((3, 0)));
    assert_eq!(fs.opendir(9, 0), Err(Errno::Enoent));
    assert_eq!(fs.releasedir(3, 3, 0), Ok(()));
    assert_eq!(fs.releasedir(9, 9, 0), Err(Errno::Eio));
}

#[test]
fn readdir_emits_dot_dotdot_then_children() {
    let fs = sample_fs();
    let entries = fs.readdir(1, 0).unwrap();
    assert_eq!(entries.len(), 4);
    assert_eq!(entries[0].name, b".".to_vec());
    assert_eq!(entries[0].ino, 1);
    assert_eq!(entries[0].next_offset, 1);
    assert_eq!(entries[0].kind, FileKind::Directory);
    assert_eq!(entries[1].name, b"..".to_vec());
    assert_eq!(entries[1].ino, 0);
    assert_eq!(entries[1].next_offset, 2);
    assert_eq!(entries[2].name, b"a.txt".to_vec());
    assert_eq!(entries[2].ino, 2);
    assert_eq!(entries[2].next_offset, 3);
    assert_eq!(entries[3].name, b"dir".to_vec());
    assert_eq!(entries[3].ino, 3);
    assert_eq!(entries[3].next_offset, 4);
    // offsets 1 and 2 resume at `..` and the first child respectively
    let from1 = fs.readdir(1, 1).unwrap();
    assert_eq!(from1[0].name, b"..".to_vec());
    let from2 = fs.readdir(1, 2).unwrap();
    assert_eq!(from2[0].name, b"a.txt".to_vec());
    assert_eq!(from2[0].next_offset, 3);
    // next-offsets are monotonic and resuming there terminates the stream
    let from3 = fs.readdir(1, 3).unwrap();
    assert_eq!(from3.len(), 1);
    assert_eq!(from3[0].name, b"dir".to_vec());
    let done = fs.readdir(1, 4).unwrap();
    assert!(done.is_empty());
    // a non-directory is refused
    assert_eq!(fs.readdir(2, 0).unwrap_err(), Errno::Eio);
}

#[test]
fn readlink_returns_raw_target_bytes() {
    let fs = sample_fs();
    assert_eq!(fs.readlink(5).unwrap(), b"b.bin".to_vec());
    assert_eq!(fs.readlink(4), Err(Errno::Enoent));
    assert_eq!(fs.readlink(1), Err(Errno::Enoent));
    let (attr, _, _) = fs.lookup(3, b"link").unwrap();
    assert_eq!(attr.kind, FileKind::Symlink);
}

#[test]
fn open_rejects_before_touching_state() {
    let mut fs = sample_fs();
    assert!(matches!(
        fs.open_begin(2, O_WRONLY | O_CREAT),
        OpenStep::Rejected(Errno::Eio)
    ));
    assert!(matches!(fs.open_begin(2, 3), OpenStep::Rejected(Errno::Einval)));
    assert_eq!(fs.handles.len(), 0);
}

#[test]
fn open_reports_unknown_inode() {
    let mut fs = sample_fs();
    assert!(matches!(fs.open_begin(42, O_RDONLY), OpenStep::Unknown));
}

#[test]
fn open_release_reference_counting() {
    let mut fs = sample_fs();
    // first open: a cache populate is requested at the record's path
    let step = fs.open_begin(2, O_RDONLY);
    let path = match step {
        OpenStep::Populate(p) => p,
        other => panic!("expected populate, got {other:?}"),
    };
    assert_eq!(path, b"a.txt".to_vec());
    assert_eq!(fs.open_finish(2, 77), (2, 0));
    assert_eq!(fs.handles.count_of(2), 1);
    // second open coalesces onto the same handle: same fh, count 2
    assert!(matches!(fs.open_begin(2, O_RDONLY), OpenStep::Reused));
    assert_eq!(fs.handles.count_of(2), 2);
    assert_eq!(fs.handle(2), Some(&77));
    // one release keeps the handle
    assert_eq!(fs.release(2), Ok(()));
    assert_eq!(fs.handles.count_of(2), 1);
    assert_eq!(fs.handle(2), Some(&77));
    // the balancing release removes it: no entry remains
    assert_eq!(fs.release(2), Ok(()));
    assert_eq!(fs.handles.count_of(2), 0);
    assert!(fs.handle(2).is_none());
    assert_eq!(fs.handles.len(), 0);
    // releasing an unknown handle is an error
    assert_eq!(fs.release(2), Err(Errno::Eio));
}

#[test]
fn balanced_opens_create_one_descriptor() {
    let mut fs = sample_fs();
    let k = 5;
    match fs.open_begin(4, O_RDONLY) {
        OpenStep::Populate(_) => {
            fs.open_finish(4, 99);
        },
        other => panic!("expected populate, got {other:?}"),
    }
    for _ in 1..k {
        // every further open reuses the one descriptor
        assert!(matches!(fs.open_begin(4, O_RDONLY), OpenStep::Reused));
        assert_eq!(fs.handle(4), Some(&99));
    }
    assert_eq!(fs.handles.count_of(4), k);
    for j in (0..k).rev() {
        assert_eq!(fs.release(4), Ok(()));
        assert_eq!(fs.handles.count_of(4), j);
        if j > 0 {
            assert_eq!(fs.handle(4), Some(&99));
        }
    }
    assert_eq!(fs.handles.len(), 0);
}

#[test]
fn read_check_requires_a_handle() {
    let mut fs = sample_fs();
    assert_eq!(fs.read_check(2), Err(Errno::Eio));
    if let OpenStep::Populate(_) = fs.open_begin(2, O_RDONLY) {
        fs.open_finish(2, 7);
    }
    assert_eq!(fs.read_check(2), Ok(()));
}

#[test]
fn zero_size_read_is_empty_and_complete() {
    let rb = ReadBuf::new(0);
    assert!(rb.done);
    assert!(rb.buf.is_empty());
}

#[test]
fn read_fills_to_requested_size() {
    let mut rb = ReadBuf::new(10);
    assert!(!rb.done);
    assert!(!rb.advance(4));
    assert_eq!(rb.filled, 4);
    assert!(rb.advance(6));
    assert_eq!(rb.buf.len(), 10);
    assert!(!rb.eof);
}

#[test]
fn short_read_ends_exactly_at_end_of_file() {
    // a zero transfer marks end of file: the result holds the bytes read
    let mut rb = ReadBuf::new(10);
    rb.buf[0] = 1;
    rb.buf[3] = 4;
    assert!(!rb.advance(4));
    assert!(rb.advance(0));
    assert!(rb.eof);
    assert_eq!(rb.buf, vec![1, 0, 0, 4]);
    assert_eq!(rb.buf.len(), rb.filled);
}
