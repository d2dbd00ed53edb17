use cachefs::attr::{RawMeta, TimeSpec};
use cachefs::builder::{AddOutcome, TreeBuilder};
use cachefs::codec::{decode_tree, encode_tree};
use cachefs::snapshot::{load, save};
use cachefs::tree::FileTree;
use cachefs::validate::check_wf;

fn raw_dir() -> RawMeta {
    RawMeta {
        is_symlink: false,
        is_dir: true,
        is_file: false,
        size: 0,
        blocks: 0,
        atime: None,
        mtime: None,
        crtime: None,
        ctime_secs: 100,
        mode: 0o755,
        nlink: 2,
        uid: 1000,
        gid: 1000,
        rdev: 0,
        blksize: 4096,
    }
}

fn raw_file(size: u64) -> RawMeta {
    RawMeta {
        is_symlink: false,
        is_dir: false,
        is_file: true,
        size,
        blocks: 1,
        atime: Some(TimeSpec { secs: 10, nanos: 1 }),
        mtime: Some(TimeSpec { secs: 20, nanos: 2 }),
        crtime: Some(TimeSpec { secs: 30, nanos: 3 }),
        ctime_secs: 40,
        mode: 0o644,
        nlink: 1,
        uid: 1000,
        gid: 1000,
        rdev: 0,
        blksize: 4096,
    }
}

fn raw_link() -> RawMeta {
    RawMeta { is_symlink: true, is_dir: false, is_file: false, ..raw_file(5) }
}

fn sample_tree() -> FileTree {
    let mut b = TreeBuilder::new(&raw_dir()).unwrap();
    assert_eq!(b.next_dir(), Some(1));
    assert_eq!(b.add_entry(1, b"a.txt", &raw_file(6), None), AddOutcome::Added(2));
    assert_eq!(b.add_entry(1, b"dir", &raw_dir(), None), AddOutcome::Added(3));
    assert_eq!(b.next_dir(), Some(3));
    assert_eq!(b.add_entry(3, b"b.bin", &raw_file(256), None), AddOutcome::Added(4));
    assert_eq!(
        b.add_entry(3, b"link", &raw_link(), Some(b"b.bin".to_vec())),
        AddOutcome::Added(5)
    );
    assert_eq!(b.next_dir(), None);
    b.finish()
}

/// The two trees answer lookup, getattr, folder and symlink identically
/// for every inode.
fn assert_same_answers(a: &FileTree, b: &FileTree) {
    assert_eq!(a.infos.len(), b.infos.len());
    for ino in 0..=(a.infos.len() as u64 + 1) {
        match (a.getattr(ino), b.getattr(ino)) {
            (Some(x), Some(y)) => assert_eq!(x, y),
            (None, None) => {},
            _ => panic!("getattr({ino}) differs"),
        }
        match (a.symlink(ino), b.symlink(ino)) {
            (Some((_, x)), Some((_, y))) => assert_eq!(x, y),
            (None, None) => {},
            _ => panic!("symlink({ino}) differs"),
        }
        match (a.folder(ino), b.folder(ino)) {
            (Some((xf, xc)), Some((yf, yc))) => {
                assert_eq!(xf.parent, yf.parent);
                assert_eq!(xf.path, yf.path);
                assert_eq!(xc.entries, yc.entries);
                for (name, child) in &xc.entries {
                    assert_eq!(
                        a.lookup(ino, name).copied(),
                        b.lookup(ino, name).copied()
                    );
                    assert_eq!(a.lookup(ino, name).unwrap().ino, *child);
                }
            },
            (None, None) => {},
            _ => panic!("folder({ino}) differs"),
        }
    }
}

#[test]
fn structural_codec_round_trips() {
    let t = sample_tree();
    let bytes = encode_tree(&t);
    let t2 = decode_tree(&bytes).expect("an encoded tree must parse");
    assert_same_answers(&t, &t2);
}

#[test]
fn decoder_rejects_trailing_and_truncated_input() {
    let t = sample_tree();
    let mut bytes = encode_tree(&t);
    bytes.push(0);
    assert!(decode_tree(&bytes).is_none());
    bytes.pop();
    bytes.pop();
    assert!(decode_tree(&bytes).is_none());
    assert!(decode_tree(&vec![1, 2, 3]).is_none());
}

#[test]
fn snapshot_save_then_load_is_identity() {
    let t = sample_tree();
    let blob = save(&t).expect("compression must succeed");
    let t2 = load(&blob).expect("a saved snapshot must load");
    assert_same_answers(&t, &t2);
    assert!(check_wf(&t2));
}

#[test]
fn snapshot_blob_is_really_compressed() {
    // the persisted blob is a zstd frame, not the raw structural encoding
    let t = sample_tree();
    let blob = save(&t).expect("compression must succeed");
    let raw = encode_tree(&t);
    assert_ne!(blob, raw);
    // raw (uncompressed) bytes are not a valid snapshot
    assert!(load(&raw).is_none());
    assert!(load(&vec![0u8; 16]).is_none());
}

#[test]
fn validator_accepts_built_trees_and_rejects_tampered_ones() {
    let t = sample_tree();
    assert!(check_wf(&t));
    // break the parent pointer of one record
    let mut bad = sample_tree();
    bad.infos[3].parent = 1;
    assert!(!check_wf(&bad));
    // a snapshot of a tampered tree is refused at load
    let blob = save(&bad).expect("compression must succeed");
    assert!(load(&blob).is_none());
    // an empty tree is refused
    assert!(!check_wf(&FileTree { infos: Vec::new() }));
}
