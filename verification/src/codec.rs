//! The snapshot's structural codec: a deterministic binary encoding of the
//! inode tree. Integers are 64-bit little-endian; byte strings carry a
//! length prefix; records and variants are concatenations behind a tag.
//! Decoding an encoded tree yields the tree back (proved below); anything
//! that does not parse is rejected.

use vstd::prelude::*;
use crate::attr::{Attr, FileKind, TimeSpec};
use crate::tree::{DirMap, FileInfo, FileTree, TypeExtra};

verus! {

/// 64-bit little-endian.
pub open spec fn enc_u64(v: u64) -> Seq<u8> {
    seq![
        (v & 0xff) as u8,
        ((v >> 8) & 0xff) as u8,
        ((v >> 16) & 0xff) as u8,
        ((v >> 24) & 0xff) as u8,
        ((v >> 32) & 0xff) as u8,
        ((v >> 40) & 0xff) as u8,
        ((v >> 48) & 0xff) as u8,
        ((v >> 56) & 0xff) as u8,
    ]
}

/// Length-prefixed byte string.
pub open spec fn enc_bytes(b: Seq<u8>) -> Seq<u8> {
    enc_u64(b.len() as u64) + b
}


pub proof fn lemma_enc_u64_len(v: u64)
    ensures
        enc_u64(v).len() == 8,
{
}

pub proof fn lemma_enc_bytes_len(x: Seq<u8>)
    ensures
        enc_bytes(x).len() == 8 + x.len(),
{
}

/// Two equal encodings come from the same value.
pub proof fn lemma_enc_u64_inj(a: u64, b: u64)
    requires
        enc_u64(a) == enc_u64(b),
    ensures
        a == b,
{
    assert((a & 0xff) < 256 && ((a >> 8) & 0xff) < 256 && ((a >> 16) & 0xff) < 256 && ((a >> 24)
        & 0xff) < 256 && ((a >> 32) & 0xff) < 256 && ((a >> 40) & 0xff) < 256 && ((a >> 48) & 0xff)
        < 256 && ((a >> 56) & 0xff) < 256) by (bit_vector);
    assert((b & 0xff) < 256 && ((b >> 8) & 0xff) < 256 && ((b >> 16) & 0xff) < 256 && ((b >> 24)
        & 0xff) < 256 && ((b >> 32) & 0xff) < 256 && ((b >> 40) & 0xff) < 256 && ((b >> 48) & 0xff)
        < 256 && ((b >> 56) & 0xff) < 256) by (bit_vector);
    assert(enc_u64(a)[0] == enc_u64(b)[0]);
    assert(enc_u64(a)[1] == enc_u64(b)[1]);
    assert(enc_u64(a)[2] == enc_u64(b)[2]);
    assert(enc_u64(a)[3] == enc_u64(b)[3]);
    assert(enc_u64(a)[4] == enc_u64(b)[4]);
    assert(enc_u64(a)[5] == enc_u64(b)[5]);
    assert(enc_u64(a)[6] == enc_u64(b)[6]);
    assert(enc_u64(a)[7] == enc_u64(b)[7]);
    assert(a == b) by (bit_vector)
        requires
            (a & 0xff) == (b & 0xff),
            ((a >> 8) & 0xff) == ((b >> 8) & 0xff),
            ((a >> 16) & 0xff) == ((b >> 16) & 0xff),
            ((a >> 24) & 0xff) == ((b >> 24) & 0xff),
            ((a >> 32) & 0xff) == ((b >> 32) & 0xff),
            ((a >> 40) & 0xff) == ((b >> 40) & 0xff),
            ((a >> 48) & 0xff) == ((b >> 48) & 0xff),
            ((a >> 56) & 0xff) == ((b >> 56) & 0xff),
    ;
}

/// A window known to hold `x + y` splits into its two halves.
pub proof fn lemma_prefix_split(b: Seq<u8>, pos: int, x: Seq<u8>, y: Seq<u8>)
    requires
        0 <= pos,
        pos + x.len() + y.len() <= b.len(),
        b.subrange(pos, pos + x.len() + y.len()) == x + y,
    ensures
        b.subrange(pos, pos + x.len()) == x,
        b.subrange(pos + x.len(), pos + x.len() + y.len()) == y,
{
    let w = b.subrange(pos, pos + x.len() + y.len());
    assert forall|i: int| 0 <= i < x.len() implies b.subrange(pos, pos + x.len())[i] == x[i] by {
        assert(w[i] == (x + y)[i]);
    }
    assert(b.subrange(pos, pos + x.len()) =~= x);
    assert forall|i: int| 0 <= i < y.len() implies b.subrange(
        pos + x.len(),
        pos + x.len() + y.len(),
    )[i] == y[i] by {
        assert(w[x.len() + i] == (x + y)[x.len() + i]);
    }
    assert(b.subrange(pos + x.len(), pos + x.len() + y.len()) =~= y);
}

/// Append the encoding of `v`.
pub fn push_u64(out: &mut Vec<u8>, v: u64)
    ensures
        final(out)@ == old(out)@ + enc_u64(v),
{
    out.push((v & 0xff) as u8);
    out.push(((v >> 8) & 0xff) as u8);
    out.push(((v >> 16) & 0xff) as u8);
    out.push(((v >> 24) & 0xff) as u8);
    out.push(((v >> 32) & 0xff) as u8);
    out.push(((v >> 40) & 0xff) as u8);
    out.push(((v >> 48) & 0xff) as u8);
    out.push(((v >> 56) & 0xff) as u8);
    proof {
        assert(final(out)@ =~= old(out)@ + enc_u64(v));
    }
}

/// Append the length-prefixed bytes.
pub fn push_bytes(out: &mut Vec<u8>, b: &[u8])
    ensures
        final(out)@ == old(out)@ + enc_bytes(b@),
{
    push_u64(out, b.len() as u64);
    let ghost mid = out@;
    let n = b.len();
    let mut i: usize = 0;
    while i < n
        invariant
            n == b@.len(),
            i <= n,
            out@ =~= mid + b@.subrange(0, i as int),
        decreases n - i,
    {
        out.push(b[i]);
        proof {
            assert(out@ =~= mid + b@.subrange(0, i + 1));
        }
        i += 1;
    }
    proof {
        assert(b@.subrange(0, n as int) =~= b@);
        assert(final(out)@ =~= old(out)@ + enc_bytes(b@));
    }
}

/// Read one 64-bit little-endian integer. Succeeds exactly when eight bytes
/// are available, and returns the value whose encoding occupies them.
pub fn dec_u64_at(b: &Vec<u8>, pos: usize) -> (r: Option<(u64, usize)>)
    ensures
        pos + 8 <= b@.len() ==> match r {
            Some(p) => p.1 == pos + 8 && enc_u64(p.0) == b@.subrange(pos as int, pos + 8),
            None => false,
        },
        pos + 8 > b@.len() ==> r is None,
{
    if pos >= b.len() || b.len() - pos < 8 {
        return None;
    }
    let b0 = b[pos] as u64;
    let b1 = b[pos + 1] as u64;
    let b2 = b[pos + 2] as u64;
    let b3 = b[pos + 3] as u64;
    let b4 = b[pos + 4] as u64;
    let b5 = b[pos + 5] as u64;
    let b6 = b[pos + 6] as u64;
    let b7 = b[pos + 7] as u64;
    let v = b0 | (b1 << 8) | (b2 << 16) | (b3 << 24) | (b4 << 32) | (b5 << 40) | (b6 << 48) | (b7
        << 56);
    proof {
        assert((v & 0xff) == b0 && ((v >> 8) & 0xff) == b1 && ((v >> 16) & 0xff) == b2 && ((v
            >> 24) & 0xff) == b3 && ((v >> 32) & 0xff) == b4 && ((v >> 40) & 0xff) == b5 && ((v
            >> 48) & 0xff) == b6 && ((v >> 56) & 0xff) == b7) by (bit_vector)
            requires
                v == b0 | (b1 << 8) | (b2 << 16) | (b3 << 24) | (b4 << 32) | (b5 << 40) | (b6
                    << 48) | (b7 << 56),
                b0 < 256,
                b1 < 256,
                b2 < 256,
                b3 < 256,
                b4 < 256,
                b5 < 256,
                b6 < 256,
                b7 < 256,
        ;
        assert(enc_u64(v) =~= b@.subrange(pos as int, pos + 8));
    }
    Some((v, pos + 8))
}

/// Read one length-prefixed byte string: whenever the window at `pos` holds
/// `enc_bytes(x)` for some `x`, exactly that string comes back.
pub fn dec_bytes_at(b: &Vec<u8>, pos: usize) -> (r: Option<(Vec<u8>, usize)>)
    ensures
        forall|x: Seq<u8>|
            pos + 8 + x.len() <= b@.len() && b@.subrange(pos as int, pos + 8 + x.len())
                == enc_bytes(x) ==> match r {
                Some(p) => p.0@ == x && p.1 == pos + 8 + x.len(),
                None => false,
            },
{
    let (len, p1) = match dec_u64_at(b, pos) {
        None => {
            proof {
                assert forall|x: Seq<u8>|
                    pos + 8 + x.len() <= b@.len() && b@.subrange(pos as int, pos + 8 + x.len())
                        == enc_bytes(x) implies false by {
                    assert(pos + 8 <= b@.len());
                }
            }
            return None;
        },
        Some(p) => p,
    };
    if len > (b.len() - p1) as u64 {
        proof {
            assert forall|x: Seq<u8>|
                pos + 8 + x.len() <= b@.len() && b@.subrange(pos as int, pos + 8 + x.len())
                    == enc_bytes(x) implies false by {
                lemma_prefix_split(b@, pos as int, enc_u64(x.len() as u64), x);
                lemma_enc_u64_inj(len, x.len() as u64);
            }
        }
        return None;
    }
    let l = len as usize;
    let data = vstd::slice::slice_to_vec(vstd::slice::slice_subrange(b.as_slice(), p1, p1 + l));
    proof {
        assert forall|x: Seq<u8>|
            pos + 8 + x.len() <= b@.len() && b@.subrange(pos as int, pos + 8 + x.len())
                == enc_bytes(x) implies data@ == x && p1 + l == pos + 8 + x.len() by {
            lemma_prefix_split(b@, pos as int, enc_u64(x.len() as u64), x);
            lemma_enc_u64_inj(len, x.len() as u64);
        }
    }
    Some((data, p1 + l))
}


/// The tag byte value stored for each kind (the scanner's declaration order).
pub open spec fn kind_tag(k: FileKind) -> u64 {
    match k {
        FileKind::NamedPipe => 0u64,
        FileKind::CharDevice => 1u64,
        FileKind::BlockDevice => 2u64,
        FileKind::Directory => 3u64,
        FileKind::RegularFile => 4u64,
        FileKind::Symlink => 5u64,
        FileKind::Socket => 6u64,
    }
}

pub fn kind_tag_of(k: &FileKind) -> (r: u64)
    ensures
        r == kind_tag(*k),
{
    match *k {
        FileKind::NamedPipe => 0,
        FileKind::CharDevice => 1,
        FileKind::BlockDevice => 2,
        FileKind::Directory => 3,
        FileKind::RegularFile => 4,
        FileKind::Symlink => 5,
        FileKind::Socket => 6,
    }
}

pub fn kind_of_tag(t: u64) -> (r: Option<FileKind>)
    ensures
        forall|k: FileKind| t == kind_tag(k) ==> r == Some(k),
        r matches Some(k) ==> t == kind_tag(k),
{
    match t {
        0 => Some(FileKind::NamedPipe),
        1 => Some(FileKind::CharDevice),
        2 => Some(FileKind::BlockDevice),
        3 => Some(FileKind::Directory),
        4 => Some(FileKind::RegularFile),
        5 => Some(FileKind::Symlink),
        6 => Some(FileKind::Socket),
        _ => None,
    }
}

/// The attribute record: nineteen 64-bit fields in a fixed order.
#[verifier::opaque]
pub open spec fn enc_attr(a: Attr) -> Seq<u8> {
    enc_u64(a.ino) + (enc_u64(a.size) + (enc_u64(a.blocks) + (enc_u64(a.atime.secs) + (enc_u64(a.atime.nanos as u64) + (enc_u64(a.mtime.secs) + (enc_u64(a.mtime.nanos as u64) + (enc_u64(a.ctime.secs) + (enc_u64(a.ctime.nanos as u64) + (enc_u64(a.crtime.secs) + (enc_u64(a.crtime.nanos as u64) + (enc_u64(kind_tag(a.kind)) + (enc_u64(a.perm as u64) + (enc_u64(a.nlink as u64) + (enc_u64(a.uid as u64) + (enc_u64(a.gid as u64) + (enc_u64(a.rdev as u64) + (enc_u64(a.flags as u64) + (enc_u64(a.blksize as u64)))))))))))))))))))
}

/// Each field's eight-byte window within an encoded attribute record.
pub proof fn lemma_attr_fields(b: Seq<u8>, pos: int, a: Attr)
    requires
        0 <= pos,
        pos + 152 <= b.len(),
        b.subrange(pos, pos + 152) == enc_attr(a),
    ensures
        b.subrange(pos + 0, pos + 8) == enc_u64(a.ino),
        b.subrange(pos + 8, pos + 16) == enc_u64(a.size),
        b.subrange(pos + 16, pos + 24) == enc_u64(a.blocks),
        b.subrange(pos + 24, pos + 32) == enc_u64(a.atime.secs),
        b.subrange(pos + 32, pos + 40) == enc_u64(a.atime.nanos as u64),
        b.subrange(pos + 40, pos + 48) == enc_u64(a.mtime.secs),
        b.subrange(pos + 48, pos + 56) == enc_u64(a.mtime.nanos as u64),
        b.subrange(pos + 56, pos + 64) == enc_u64(a.ctime.secs),
        b.subrange(pos + 64, pos + 72) == enc_u64(a.ctime.nanos as u64),
        b.subrange(pos + 72, pos + 80) == enc_u64(a.crtime.secs),
        b.subrange(pos + 80, pos + 88) == enc_u64(a.crtime.nanos as u64),
        b.subrange(pos + 88, pos + 96) == enc_u64(kind_tag(a.kind)),
        b.subrange(pos + 96, pos + 104) == enc_u64(a.perm as u64),
        b.subrange(pos + 104, pos + 112) == enc_u64(a.nlink as u64),
        b.subrange(pos + 112, pos + 120) == enc_u64(a.uid as u64),
        b.subrange(pos + 120, pos + 128) == enc_u64(a.gid as u64),
        b.subrange(pos + 128, pos + 136) == enc_u64(a.rdev as u64),
        b.subrange(pos + 136, pos + 144) == enc_u64(a.flags as u64),
        b.subrange(pos + 144, pos + 152) == enc_u64(a.blksize as u64),
{
    reveal(enc_attr);
    lemma_prefix_split(b, pos + 0, enc_u64(a.ino), enc_u64(a.size) + (enc_u64(a.blocks) + (enc_u64(a.atime.secs) + (enc_u64(a.atime.nanos as u64) + (enc_u64(a.mtime.secs) + (enc_u64(a.mtime.nanos as u64) + (enc_u64(a.ctime.secs) + (enc_u64(a.ctime.nanos as u64) + (enc_u64(a.crtime.secs) + (enc_u64(a.crtime.nanos as u64) + (enc_u64(kind_tag(a.kind)) + (enc_u64(a.perm as u64) + (enc_u64(a.nlink as u64) + (enc_u64(a.uid as u64) + (enc_u64(a.gid as u64) + (enc_u64(a.rdev as u64) + (enc_u64(a.flags as u64) + (enc_u64(a.blksize as u64)))))))))))))))))));
    lemma_prefix_split(b, pos + 8, enc_u64(a.size), enc_u64(a.blocks) + (enc_u64(a.atime.secs) + (enc_u64(a.atime.nanos as u64) + (enc_u64(a.mtime.secs) + (enc_u64(a.mtime.nanos as u64) + (enc_u64(a.ctime.secs) + (enc_u64(a.ctime.nanos as u64) + (enc_u64(a.crtime.secs) + (enc_u64(a.crtime.nanos as u64) + (enc_u64(kind_tag(a.kind)) + (enc_u64(a.perm as u64) + (enc_u64(a.nlink as u64) + (enc_u64(a.uid as u64) + (enc_u64(a.gid as u64) + (enc_u64(a.rdev as u64) + (enc_u64(a.flags as u64) + (enc_u64(a.blksize as u64))))))))))))))))));
    lemma_prefix_split(b, pos + 16, enc_u64(a.blocks), enc_u64(a.atime.secs) + (enc_u64(a.atime.nanos as u64) + (enc_u64(a.mtime.secs) + (enc_u64(a.mtime.nanos as u64) + (enc_u64(a.ctime.secs) + (enc_u64(a.ctime.nanos as u64) + (enc_u64(a.crtime.secs) + (enc_u64(a.crtime.nanos as u64) + (enc_u64(kind_tag(a.kind)) + (enc_u64(a.perm as u64) + (enc_u64(a.nlink as u64) + (enc_u64(a.uid as u64) + (enc_u64(a.gid as u64) + (enc_u64(a.rdev as u64) + (enc_u64(a.flags as u64) + (enc_u64(a.blksize as u64)))))))))))))))));
    lemma_prefix_split(b, pos + 24, enc_u64(a.atime.secs), enc_u64(a.atime.nanos as u64) + (enc_u64(a.mtime.secs) + (enc_u64(a.mtime.nanos as u64) + (enc_u64(a.ctime.secs) + (enc_u64(a.ctime.nanos as u64) + (enc_u64(a.crtime.secs) + (enc_u64(a.crtime.nanos as u64) + (enc_u64(kind_tag(a.kind)) + (enc_u64(a.perm as u64) + (enc_u64(a.nlink as u64) + (enc_u64(a.uid as u64) + (enc_u64(a.gid as u64) + (enc_u64(a.rdev as u64) + (enc_u64(a.flags as u64) + (enc_u64(a.blksize as u64))))))))))))))));
    lemma_prefix_split(b, pos + 32, enc_u64(a.atime.nanos as u64), enc_u64(a.mtime.secs) + (enc_u64(a.mtime.nanos as u64) + (enc_u64(a.ctime.secs) + (enc_u64(a.ctime.nanos as u64) + (enc_u64(a.crtime.secs) + (enc_u64(a.crtime.nanos as u64) + (enc_u64(kind_tag(a.kind)) + (enc_u64(a.perm as u64) + (enc_u64(a.nlink as u64) + (enc_u64(a.uid as u64) + (enc_u64(a.gid as u64) + (enc_u64(a.rdev as u64) + (enc_u64(a.flags as u64) + (enc_u64(a.blksize as u64)))))))))))))));
    lemma_prefix_split(b, pos + 40, enc_u64(a.mtime.secs), enc_u64(a.mtime.nanos as u64) + (enc_u64(a.ctime.secs) + (enc_u64(a.ctime.nanos as u64) + (enc_u64(a.crtime.secs) + (enc_u64(a.crtime.nanos as u64) + (enc_u64(kind_tag(a.kind)) + (enc_u64(a.perm as u64) + (enc_u64(a.nlink as u64) + (enc_u64(a.uid as u64) + (enc_u64(a.gid as u64) + (enc_u64(a.rdev as u64) + (enc_u64(a.flags as u64) + (enc_u64(a.blksize as u64))))))))))))));
    lemma_prefix_split(b, pos + 48, enc_u64(a.mtime.nanos as u64), enc_u64(a.ctime.secs) + (enc_u64(a.ctime.nanos as u64) + (enc_u64(a.crtime.secs) + (enc_u64(a.crtime.nanos as u64) + (enc_u64(kind_tag(a.kind)) + (enc_u64(a.perm as u64) + (enc_u64(a.nlink as u64) + (enc_u64(a.uid as u64) + (enc_u64(a.gid as u64) + (enc_u64(a.rdev as u64) + (enc_u64(a.flags as u64) + (enc_u64(a.blksize as u64)))))))))))));
    lemma_prefix_split(b, pos + 56, enc_u64(a.ctime.secs), enc_u64(a.ctime.nanos as u64) + (enc_u64(a.crtime.secs) + (enc_u64(a.crtime.nanos as u64) + (enc_u64(kind_tag(a.kind)) + (enc_u64(a.perm as u64) + (enc_u64(a.nlink as u64) + (enc_u64(a.uid as u64) + (enc_u64(a.gid as u64) + (enc_u64(a.rdev as u64) + (enc_u64(a.flags as u64) + (enc_u64(a.blksize as u64))))))))))));
    lemma_prefix_split(b, pos + 64, enc_u64(a.ctime.nanos as u64), enc_u64(a.crtime.secs) + (enc_u64(a.crtime.nanos as u64) + (enc_u64(kind_tag(a.kind)) + (enc_u64(a.perm as u64) + (enc_u64(a.nlink as u64) + (enc_u64(a.uid as u64) + (enc_u64(a.gid as u64) + (enc_u64(a.rdev as u64) + (enc_u64(a.flags as u64) + (enc_u64(a.blksize as u64)))))))))));
    lemma_prefix_split(b, pos + 72, enc_u64(a.crtime.secs), enc_u64(a.crtime.nanos as u64) + (enc_u64(kind_tag(a.kind)) + (enc_u64(a.perm as u64) + (enc_u64(a.nlink as u64) + (enc_u64(a.uid as u64) + (enc_u64(a.gid as u64) + (enc_u64(a.rdev as u64) + (enc_u64(a.flags as u64) + (enc_u64(a.blksize as u64))))))))));
    lemma_prefix_split(b, pos + 80, enc_u64(a.crtime.nanos as u64), enc_u64(kind_tag(a.kind)) + (enc_u64(a.perm as u64) + (enc_u64(a.nlink as u64) + (enc_u64(a.uid as u64) + (enc_u64(a.gid as u64) + (enc_u64(a.rdev as u64) + (enc_u64(a.flags as u64) + (enc_u64(a.blksize as u64)))))))));
    lemma_prefix_split(b, pos + 88, enc_u64(kind_tag(a.kind)), enc_u64(a.perm as u64) + (enc_u64(a.nlink as u64) + (enc_u64(a.uid as u64) + (enc_u64(a.gid as u64) + (enc_u64(a.rdev as u64) + (enc_u64(a.flags as u64) + (enc_u64(a.blksize as u64))))))));
    lemma_prefix_split(b, pos + 96, enc_u64(a.perm as u64), enc_u64(a.nlink as u64) + (enc_u64(a.uid as u64) + (enc_u64(a.gid as u64) + (enc_u64(a.rdev as u64) + (enc_u64(a.flags as u64) + (enc_u64(a.blksize as u64)))))));
    lemma_prefix_split(b, pos + 104, enc_u64(a.nlink as u64), enc_u64(a.uid as u64) + (enc_u64(a.gid as u64) + (enc_u64(a.rdev as u64) + (enc_u64(a.flags as u64) + (enc_u64(a.blksize as u64))))));
    lemma_prefix_split(b, pos + 112, enc_u64(a.uid as u64), enc_u64(a.gid as u64) + (enc_u64(a.rdev as u64) + (enc_u64(a.flags as u64) + (enc_u64(a.blksize as u64)))));
    lemma_prefix_split(b, pos + 120, enc_u64(a.gid as u64), enc_u64(a.rdev as u64) + (enc_u64(a.flags as u64) + (enc_u64(a.blksize as u64))));
    lemma_prefix_split(b, pos + 128, enc_u64(a.rdev as u64), enc_u64(a.flags as u64) + (enc_u64(a.blksize as u64)));
    lemma_prefix_split(b, pos + 136, enc_u64(a.flags as u64), enc_u64(a.blksize as u64));
}

/// An encoded attribute record is 152 bytes wide.
pub proof fn lemma_enc_attr_len(a: Attr)
    ensures
        enc_attr(a).len() == 152,
{
    reveal(enc_attr);
}

/// Append an encoded attribute record.
#[verifier::rlimit(60)]
pub fn push_attr(out: &mut Vec<u8>, a: &Attr)
    ensures
        final(out)@ == old(out)@ + enc_attr(*a),
{
    push_u64(out, a.ino);
    push_u64(out, a.size);
    push_u64(out, a.blocks);
    push_u64(out, a.atime.secs);
    push_u64(out, a.atime.nanos as u64);
    push_u64(out, a.mtime.secs);
    push_u64(out, a.mtime.nanos as u64);
    push_u64(out, a.ctime.secs);
    push_u64(out, a.ctime.nanos as u64);
    push_u64(out, a.crtime.secs);
    push_u64(out, a.crtime.nanos as u64);
    push_u64(out, kind_tag_of(&a.kind));
    push_u64(out, a.perm as u64);
    push_u64(out, a.nlink as u64);
    push_u64(out, a.uid as u64);
    push_u64(out, a.gid as u64);
    push_u64(out, a.rdev as u64);
    push_u64(out, a.flags as u64);
    push_u64(out, a.blksize as u64);
    proof {
        reveal(enc_attr);
        assert(final(out)@ =~= old(out)@ + enc_attr(*a));
    }
}

/// Read one attribute record: whenever the window at `pos` holds
/// `enc_attr(a)` for some `a`, exactly that record comes back.
pub fn dec_attr_at(b: &Vec<u8>, pos: usize) -> (r: Option<(Attr, usize)>)
    ensures
        forall|a: Attr|
            pos + 152 <= b@.len() && b@.subrange(pos as int, pos + 152) == enc_attr(a)
                ==> match r {
                Some(p) => p.0 == a && p.1 == pos + 152,
                None => false,
            },
{
    if pos >= b.len() || b.len() - pos < 152 {
        return None;
    }
    let (v_ino, _) = dec_u64_at(b, pos + 0).unwrap();
    let (v_size, _) = dec_u64_at(b, pos + 8).unwrap();
    let (v_blocks, _) = dec_u64_at(b, pos + 16).unwrap();
    let (v_asec, _) = dec_u64_at(b, pos + 24).unwrap();
    let (v_anano, _) = dec_u64_at(b, pos + 32).unwrap();
    let (v_msec, _) = dec_u64_at(b, pos + 40).unwrap();
    let (v_mnano, _) = dec_u64_at(b, pos + 48).unwrap();
    let (v_csec, _) = dec_u64_at(b, pos + 56).unwrap();
    let (v_cnano, _) = dec_u64_at(b, pos + 64).unwrap();
    let (v_crsec, _) = dec_u64_at(b, pos + 72).unwrap();
    let (v_crnano, _) = dec_u64_at(b, pos + 80).unwrap();
    let (v_kind, _) = dec_u64_at(b, pos + 88).unwrap();
    let (v_perm, _) = dec_u64_at(b, pos + 96).unwrap();
    let (v_nlink, _) = dec_u64_at(b, pos + 104).unwrap();
    let (v_uid, _) = dec_u64_at(b, pos + 112).unwrap();
    let (v_gid, _) = dec_u64_at(b, pos + 120).unwrap();
    let (v_rdev, _) = dec_u64_at(b, pos + 128).unwrap();
    let (v_flags, _) = dec_u64_at(b, pos + 136).unwrap();
    let (v_blksize, _) = dec_u64_at(b, pos + 144).unwrap();
    let kind = match kind_of_tag(v_kind) {
        None => {
            proof {
                assert forall|a: Attr|
                    pos + 152 <= b@.len() && b@.subrange(pos as int, pos + 152) == enc_attr(a)
                        implies false by {
                    lemma_attr_fields(b@, pos as int, a);
                    lemma_enc_u64_inj(v_kind, kind_tag(a.kind));
                }
            }
            return None;
        },
        Some(k) => k,
    };
    if v_anano >= 0x1_0000_0000 || v_mnano >= 0x1_0000_0000 || v_cnano >= 0x1_0000_0000
        || v_crnano >= 0x1_0000_0000 || v_perm >= 0x1_0000 || v_nlink >= 0x1_0000_0000
        || v_uid >= 0x1_0000_0000 || v_gid >= 0x1_0000_0000 || v_rdev >= 0x1_0000_0000
        || v_flags >= 0x1_0000_0000 || v_blksize >= 0x1_0000_0000 {
        proof {
            assert forall|a: Attr|
                pos + 152 <= b@.len() && b@.subrange(pos as int, pos + 152) == enc_attr(a)
                    implies false by {
                lemma_attr_fields(b@, pos as int, a);
                lemma_enc_u64_inj(v_anano, a.atime.nanos as u64);
                lemma_enc_u64_inj(v_mnano, a.mtime.nanos as u64);
                lemma_enc_u64_inj(v_cnano, a.ctime.nanos as u64);
                lemma_enc_u64_inj(v_crnano, a.crtime.nanos as u64);
                lemma_enc_u64_inj(v_perm, a.perm as u64);
                lemma_enc_u64_inj(v_nlink, a.nlink as u64);
                lemma_enc_u64_inj(v_uid, a.uid as u64);
                lemma_enc_u64_inj(v_gid, a.gid as u64);
                lemma_enc_u64_inj(v_rdev, a.rdev as u64);
                lemma_enc_u64_inj(v_flags, a.flags as u64);
                lemma_enc_u64_inj(v_blksize, a.blksize as u64);
            }
        }
        return None;
    }
    let attr = Attr {
        ino: v_ino,
        size: v_size,
        blocks: v_blocks,
        atime: TimeSpec { secs: v_asec, nanos: v_anano as u32 },
        mtime: TimeSpec { secs: v_msec, nanos: v_mnano as u32 },
        ctime: TimeSpec { secs: v_csec, nanos: v_cnano as u32 },
        crtime: TimeSpec { secs: v_crsec, nanos: v_crnano as u32 },
        kind,
        perm: v_perm as u16,
        nlink: v_nlink as u32,
        uid: v_uid as u32,
        gid: v_gid as u32,
        rdev: v_rdev as u32,
        flags: v_flags as u32,
        blksize: v_blksize as u32,
    };
    proof {
        assert forall|a: Attr|
            pos + 152 <= b@.len() && b@.subrange(pos as int, pos + 152) == enc_attr(a) implies attr
            == a by {
            lemma_attr_fields(b@, pos as int, a);
            lemma_enc_u64_inj(v_ino, a.ino);
            lemma_enc_u64_inj(v_size, a.size);
            lemma_enc_u64_inj(v_blocks, a.blocks);
            lemma_enc_u64_inj(v_asec, a.atime.secs);
            lemma_enc_u64_inj(v_anano, a.atime.nanos as u64);
            lemma_enc_u64_inj(v_msec, a.mtime.secs);
            lemma_enc_u64_inj(v_mnano, a.mtime.nanos as u64);
            lemma_enc_u64_inj(v_csec, a.ctime.secs);
            lemma_enc_u64_inj(v_cnano, a.ctime.nanos as u64);
            lemma_enc_u64_inj(v_crsec, a.crtime.secs);
            lemma_enc_u64_inj(v_crnano, a.crtime.nanos as u64);
            lemma_enc_u64_inj(v_kind, kind_tag(a.kind));
            lemma_enc_u64_inj(v_perm, a.perm as u64);
            lemma_enc_u64_inj(v_nlink, a.nlink as u64);
            lemma_enc_u64_inj(v_uid, a.uid as u64);
            lemma_enc_u64_inj(v_gid, a.gid as u64);
            lemma_enc_u64_inj(v_rdev, a.rdev as u64);
            lemma_enc_u64_inj(v_flags, a.flags as u64);
            lemma_enc_u64_inj(v_blksize, a.blksize as u64);
        }
    }
    Some((attr, pos + 152))
}


/// A run of (name, child inode) pairs, each name length-prefixed.
pub open spec fn enc_pairs(es: Seq<(Seq<u8>, u64)>) -> Seq<u8>
    decreases es.len(),
{
    if es.len() == 0 {
        Seq::empty()
    } else {
        enc_bytes(es[0].0) + (enc_u64(es[0].1) + enc_pairs(es.drop_first()))
    }
}

/// The payload behind each kind tag: nothing, the link target, or the
/// counted run of child pairs.
pub open spec fn enc_extra(x: TypeExtra) -> Seq<u8> {
    match x {
        TypeExtra::RegularFile => enc_u64(0),
        TypeExtra::Symlink(t) => enc_u64(1) + enc_bytes(t@),
        TypeExtra::Directory(dm) => enc_u64(2) + (enc_u64(dm.pairs().len() as u64) + enc_pairs(
            dm.pairs(),
        )),
    }
}

/// One inode record.
pub open spec fn enc_info(fi: FileInfo) -> Seq<u8> {
    enc_u64(fi.parent) + (enc_bytes(fi.path@) + (enc_attr(fi.attr) + enc_extra(fi.type_extra)))
}

/// A run of inode records.
pub open spec fn enc_infos(s: Seq<FileInfo>) -> Seq<u8>
    decreases s.len(),
{
    if s.len() == 0 {
        Seq::empty()
    } else {
        enc_info(s[0]) + enc_infos(s.drop_first())
    }
}

/// The whole tree: the record count, then the records in inode order.
pub open spec fn enc_tree(t: FileTree) -> Seq<u8> {
    enc_u64(t.infos@.len() as u64) + enc_infos(t.infos@)
}

/// Same payload up to views.
pub open spec fn extra_eqv(a: TypeExtra, b: TypeExtra) -> bool {
    match (a, b) {
        (TypeExtra::RegularFile, TypeExtra::RegularFile) => true,
        (TypeExtra::Symlink(x), TypeExtra::Symlink(y)) => x@ == y@,
        (TypeExtra::Directory(dx), TypeExtra::Directory(dy)) => dx.pairs() == dy.pairs(),
        _ => false,
    }
}

/// Same record up to views.
pub open spec fn info_eqv(a: FileInfo, b: FileInfo) -> bool {
    &&& a.parent == b.parent
    &&& a.path@ == b.path@
    &&& a.attr == b.attr
    &&& extra_eqv(a.type_extra, b.type_extra)
}

/// Same tree up to views: the two answer every query identically.
pub open spec fn tree_eqv(a: FileTree, b: FileTree) -> bool {
    &&& a.infos@.len() == b.infos@.len()
    &&& forall|i: int| 0 <= i < a.infos@.len() ==> info_eqv(#[trigger] a.infos@[i], b.infos@[i])
}

/// A run of encoded pairs splits at any index.
pub proof fn lemma_enc_pairs_split(es: Seq<(Seq<u8>, u64)>, i: int)
    requires
        0 <= i <= es.len(),
    ensures
        enc_pairs(es) == enc_pairs(es.subrange(0, i)) + enc_pairs(es.subrange(i, es.len() as int)),
    decreases i,
{
    if i == 0 {
        assert(es.subrange(0, 0) =~= Seq::<(Seq<u8>, u64)>::empty());
        assert(es.subrange(0, es.len() as int) =~= es);
        assert(enc_pairs(es) =~= enc_pairs(es.subrange(0, 0)) + enc_pairs(
            es.subrange(0, es.len() as int),
        ));
    } else {
        let d = es.drop_first();
        lemma_enc_pairs_split(d, i - 1);
        assert(d.subrange(0, i - 1) =~= es.subrange(0, i).drop_first());
        assert(d.subrange(i - 1, d.len() as int) =~= es.subrange(i, es.len() as int));
        assert(es.subrange(0, i)[0] == es[0]);
        assert(enc_pairs(es) =~= enc_pairs(es.subrange(0, i)) + enc_pairs(
            es.subrange(i, es.len() as int),
        ));
    }
}

/// Extending a prefix of encoded pairs by its next pair.
pub proof fn lemma_enc_pairs_snoc(es: Seq<(Seq<u8>, u64)>, i: int)
    requires
        0 <= i < es.len(),
    ensures
        enc_pairs(es.subrange(0, i + 1)) == enc_pairs(es.subrange(0, i)) + (enc_bytes(es[i].0)
            + enc_u64(es[i].1)),
{
    let p = es.subrange(0, i + 1);
    lemma_enc_pairs_split(p, i);
    assert(p.subrange(0, i) =~= es.subrange(0, i));
    let single = p.subrange(i, p.len() as int);
    assert(single.len() == 1 && single[0] == es[i]);
    assert(single.drop_first() =~= Seq::<(Seq<u8>, u64)>::empty());
    assert(enc_pairs(single.drop_first()) == Seq::<u8>::empty());
    assert(enc_pairs(single) == enc_bytes(single[0].0) + (enc_u64(single[0].1) + enc_pairs(
        single.drop_first(),
    )));
    assert(enc_pairs(single) =~= enc_bytes(es[i].0) + enc_u64(es[i].1));
    assert(enc_pairs(es.subrange(0, i + 1)) =~= enc_pairs(es.subrange(0, i)) + (enc_bytes(es[i].0)
        + enc_u64(es[i].1)));
}

/// A run of encoded records splits at any index.
#[verifier::rlimit(60)]
pub proof fn lemma_enc_infos_split(s: Seq<FileInfo>, i: int)
    requires
        0 <= i <= s.len(),
    ensures
        enc_infos(s) == enc_infos(s.subrange(0, i)) + enc_infos(s.subrange(i, s.len() as int)),
    decreases i,
{
    if i == 0 {
        assert(s.subrange(0, 0) =~= Seq::<FileInfo>::empty());
        assert(s.subrange(0, s.len() as int) =~= s);
        assert(enc_infos(s) =~= enc_infos(s.subrange(0, 0)) + enc_infos(
            s.subrange(0, s.len() as int),
        ));
    } else {
        let d = s.drop_first();
        lemma_enc_infos_split(d, i - 1);
        assert(d.subrange(0, i - 1) =~= s.subrange(0, i).drop_first());
        assert(d.subrange(i - 1, d.len() as int) =~= s.subrange(i, s.len() as int));
        assert(s.subrange(0, i)[0] == s[0]);
        assert(enc_infos(s) =~= enc_infos(s.subrange(0, i)) + enc_infos(
            s.subrange(i, s.len() as int),
        ));
    }
}

/// Extending a prefix of encoded records by its next record.
#[verifier::rlimit(60)]
pub proof fn lemma_enc_infos_snoc(s: Seq<FileInfo>, i: int)
    requires
        0 <= i < s.len(),
    ensures
        enc_infos(s.subrange(0, i + 1)) == enc_infos(s.subrange(0, i)) + enc_info(s[i]),
{
    let p = s.subrange(0, i + 1);
    lemma_enc_infos_split(p, i);
    assert(p.subrange(0, i) =~= s.subrange(0, i));
    let single = p.subrange(i, p.len() as int);
    assert(single.len() == 1 && single[0] == s[i]);
    assert(single.drop_first() =~= Seq::<FileInfo>::empty());
    assert(enc_infos(single.drop_first()) == Seq::<u8>::empty());
    assert(enc_infos(single) == enc_info(single[0]) + enc_infos(single.drop_first()));
    assert(enc_infos(single) =~= enc_info(s[i]));
    assert(enc_infos(s.subrange(0, i + 1)) =~= enc_infos(s.subrange(0, i)) + enc_info(s[i]));
}


/// Append an encoded payload.
pub fn push_extra(out: &mut Vec<u8>, x: &TypeExtra)
    ensures
        final(out)@ == old(out)@ + enc_extra(*x),
{
    match x {
        TypeExtra::RegularFile => {
            push_u64(out, 0);
        },
        TypeExtra::Symlink(t) => {
            push_u64(out, 1);
            push_bytes(out, t.as_slice());
            proof {
                assert(final(out)@ =~= old(out)@ + enc_extra(*x));
            }
        },
        TypeExtra::Directory(dm) => {
            push_u64(out, 2);
            push_u64(out, dm.entries.len() as u64);
            let ghost base = out@;
            let n = dm.entries.len();
            let mut i: usize = 0;
            while i < n
                invariant
                    n == dm.pairs().len(),
                    i <= n,
                    out@ =~= base + enc_pairs(dm.pairs().subrange(0, i as int)),
                decreases n - i,
            {
                proof {
                    assert(enc_pairs(dm.pairs().subrange(0, 0)) == Seq::<u8>::empty());
                }
                let e = &dm.entries[i];
                push_bytes(out, e.0.as_slice());
                push_u64(out, e.1);
                proof {
                    lemma_enc_pairs_snoc(dm.pairs(), i as int);
                    assert(dm.pairs()[i as int] == (e.0@, e.1));
                    assert(out@ =~= base + enc_pairs(dm.pairs().subrange(0, i + 1)));
                }
                i += 1;
            }
            proof {
                assert(dm.pairs().subrange(0, n as int) =~= dm.pairs());
                assert(final(out)@ =~= old(out)@ + enc_extra(*x));
            }
        },
    }
}

/// Append one encoded inode record.
pub fn push_info(out: &mut Vec<u8>, fi: &FileInfo)
    ensures
        final(out)@ == old(out)@ + enc_info(*fi),
{
    push_u64(out, fi.parent);
    push_bytes(out, fi.path.as_slice());
    push_attr(out, &fi.attr);
    push_extra(out, &fi.type_extra);
    proof {
        assert(final(out)@ =~= old(out)@ + enc_info(*fi));
    }
}

/// The tree's full encoding: the record count, then each record in inode
/// order.
pub fn encode_tree(t: &FileTree) -> (r: Vec<u8>)
    ensures
        r@ == enc_tree(*t),
{
    let mut out: Vec<u8> = Vec::new();
    push_u64(&mut out, t.infos.len() as u64);
    let ghost base = out@;
    let n = t.infos.len();
    let mut i: usize = 0;
    while i < n
        invariant
            n == t.infos@.len(),
            i <= n,
            out@ =~= base + enc_infos(t.infos@.subrange(0, i as int)),
        decreases n - i,
    {
        proof {
            assert(enc_infos(t.infos@.subrange(0, 0)) == Seq::<u8>::empty());
        }
        push_info(&mut out, &t.infos[i]);
        proof {
            lemma_enc_infos_snoc(t.infos@, i as int);
            assert(out@ =~= base + enc_infos(t.infos@.subrange(0, i + 1)));
        }
        i += 1;
    }
    proof {
        assert(t.infos@.subrange(0, n as int) =~= t.infos@);
        assert(out@ =~= enc_tree(*t));
    }
    out
}


/// The bytes at `pos` are exactly `w`.
pub open spec fn window_is(b: Seq<u8>, pos: int, w: Seq<u8>) -> bool {
    &&& 0 <= pos
    &&& pos + w.len() <= b.len()
    &&& b.subrange(pos, pos + w.len()) == w
}

/// A window holding `x + y` holds `x` and then `y`.
pub proof fn lemma_window_split(b: Seq<u8>, pos: int, x: Seq<u8>, y: Seq<u8>)
    requires
        window_is(b, pos, x + y),
    ensures
        window_is(b, pos, x),
        window_is(b, pos + x.len(), y),
{
    lemma_prefix_split(b, pos, x, y);
}

/// The raw entry sequence seen as (name bytes, child inode) pairs.
pub open spec fn pairs_view(s: Seq<(Vec<u8>, u64)>) -> Seq<(Seq<u8>, u64)> {
    s.map_values(|e: (Vec<u8>, u64)| (e.0@, e.1))
}

/// Read a counted run of (name, child inode) pairs: whenever the window at
/// `pos` holds `enc_pairs(es)` for a run `es` of that count, exactly those
/// pairs come back.
pub fn dec_pairs_at(b: &Vec<u8>, pos: usize, count: u64) -> (r: Option<
    (Vec<(Vec<u8>, u64)>, usize),
>)
    ensures
        forall|es: Seq<(Seq<u8>, u64)>|
            es.len() == count && window_is(b@, pos as int, enc_pairs(es)) ==> match r {
                Some(p) => pairs_view(p.0@) == es && p.1 == pos + enc_pairs(es).len(),
                None => false,
            },
{
    let mut out: Vec<(Vec<u8>, u64)> = Vec::new();
    let mut cur = pos;
    let mut i: u64 = 0;
    proof {
        assert forall|es: Seq<(Seq<u8>, u64)>|
            es.len() == count && window_is(b@, pos as int, enc_pairs(es)) implies pairs_view(out@)
            == es.subrange(0, 0) && cur == pos + enc_pairs(es.subrange(0, 0)).len() by {
            assert(es.subrange(0, 0) =~= Seq::<(Seq<u8>, u64)>::empty());
            assert(enc_pairs(es.subrange(0, 0)) == Seq::<u8>::empty());
            assert(pairs_view(out@) =~= es.subrange(0, 0));
        }
    }
    while i < count
        invariant
            i <= count,
            forall|es: Seq<(Seq<u8>, u64)>|
                es.len() == count && window_is(b@, pos as int, enc_pairs(es)) ==> pairs_view(out@)
                    == es.subrange(0, i as int) && cur == pos + enc_pairs(
                    es.subrange(0, i as int),
                ).len(),
        decreases count - i,
    {
        let (name, p1) = match dec_bytes_at(b, cur) {
            None => {
                proof {
                    assert forall|es: Seq<(Seq<u8>, u64)>|
                        es.len() == count && window_is(b@, pos as int, enc_pairs(es)) implies
                        false by {
                        dec_pairs_step(b@, pos as int, es, i as int);
                    }
                }
                return None;
            },
            Some(x) => x,
        };
        let (ino, p2) = match dec_u64_at(b, p1) {
            None => {
                proof {
                    assert forall|es: Seq<(Seq<u8>, u64)>|
                        es.len() == count && window_is(b@, pos as int, enc_pairs(es)) implies
                        false by {
                        dec_pairs_step(b@, pos as int, es, i as int);
                    }
                }
                return None;
            },
            Some(x) => x,
        };
        let ghost prev = out@;
        out.push((name, ino));
        proof {
            assert forall|es: Seq<(Seq<u8>, u64)>|
                es.len() == count && window_is(b@, pos as int, enc_pairs(es)) implies pairs_view(
                out@,
            ) == es.subrange(0, i + 1) && p2 == pos + enc_pairs(es.subrange(0, i + 1)).len() by {
                dec_pairs_step(b@, pos as int, es, i as int);
                assert(name@ == es[i as int].0);
                lemma_enc_u64_inj(ino, es[i as int].1);
                lemma_enc_pairs_snoc(es, i as int);
                assert(pairs_view(out@) =~= pairs_view(prev).push((name@, ino)));
                assert(pairs_view(out@) =~= es.subrange(0, i + 1));
            }
        }
        cur = p2;
        i += 1;
    }
    proof {
        assert forall|es: Seq<(Seq<u8>, u64)>|
            es.len() == count && window_is(b@, pos as int, enc_pairs(es)) implies pairs_view(out@)
            == es && cur == pos + enc_pairs(es).len() by {
            assert(es.subrange(0, count as int) =~= es);
        }
    }
    Some((out, cur))
}

/// The windows that the `i`-th pair of an encoded run occupies.
proof fn dec_pairs_step(b: Seq<u8>, pos: int, es: Seq<(Seq<u8>, u64)>, i: int)
    requires
        0 <= i < es.len(),
        window_is(b, pos, enc_pairs(es)),
    ensures
        window_is(b, pos + enc_pairs(es.subrange(0, i)).len(), enc_bytes(es[i].0)),
        window_is(
            b,
            pos + enc_pairs(es.subrange(0, i)).len() + 8 + es[i].0.len(),
            enc_u64(es[i].1),
        ),
{
    lemma_enc_pairs_split(es, i);
    lemma_window_split(
        b,
        pos,
        enc_pairs(es.subrange(0, i)),
        enc_pairs(es.subrange(i, es.len() as int)),
    );
    let tail = es.subrange(i, es.len() as int);
    assert(tail[0] == es[i]);
    assert(enc_pairs(tail) == enc_bytes(es[i].0) + (enc_u64(es[i].1) + enc_pairs(
        tail.drop_first(),
    )));
    let base = pos + enc_pairs(es.subrange(0, i)).len();
    lemma_window_split(
        b,
        base,
        enc_bytes(es[i].0),
        enc_u64(es[i].1) + enc_pairs(tail.drop_first()),
    );
    lemma_window_split(
        b,
        base + 8 + es[i].0.len(),
        enc_u64(es[i].1),
        enc_pairs(tail.drop_first()),
    );
}


/// Read one payload: whenever the window at `pos` holds `enc_extra(x)` for
/// some payload `x`, an equivalent payload comes back.
#[verifier::rlimit(100)]
#[verifier::spinoff_prover]
pub fn dec_extra_at(b: &Vec<u8>, pos: usize) -> (r: Option<(TypeExtra, usize)>)
    ensures
        forall|x: TypeExtra|
            window_is(b@, pos as int, enc_extra(x)) ==> match r {
                Some(p) => extra_eqv(p.0, x) && p.1 == pos + enc_extra(x).len(),
                None => false,
            },
{
    let (tag, p1) = match dec_u64_at(b, pos) {
        None => {
            proof {
                assert forall|x: TypeExtra| window_is(b@, pos as int, enc_extra(x)) implies
                    false by {
                    dec_extra_windows(b@, pos as int, x);
                }
            }
            return None;
        },
        Some(v) => v,
    };
    if tag == 0 {
        proof {
            assert forall|x: TypeExtra| window_is(b@, pos as int, enc_extra(x)) implies
                extra_eqv(TypeExtra::RegularFile, x) && p1 == pos + enc_extra(x).len() by {
                dec_extra_windows(b@, pos as int, x);
                lemma_enc_u64_len(extra_tag(x));
                assert(b@.subrange(pos as int, pos + 8) == enc_u64(extra_tag(x)));
                assert(pos + 8 <= b@.len());
                assert(enc_u64(tag) == b@.subrange(pos as int, pos + 8));
                lemma_enc_u64_inj(tag, extra_tag(x));
            }
        }
        return Some((TypeExtra::RegularFile, p1));
    }
    if tag == 1 {
        let (t, p2) = match dec_bytes_at(b, p1) {
            None => {
                proof {
                    assert forall|x: TypeExtra| window_is(b@, pos as int, enc_extra(x)) implies
                        false by {
                        dec_extra_windows(b@, pos as int, x);
                        lemma_enc_u64_len(extra_tag(x));
                        assert(b@.subrange(pos as int, pos + 8) == enc_u64(extra_tag(x)));
                        assert(pos + 8 <= b@.len());
                        assert(enc_u64(tag) == b@.subrange(pos as int, pos + 8));
                        lemma_enc_u64_inj(tag, extra_tag(x));
                        if let TypeExtra::Symlink(tx) = x {
                            assert(p1 == pos + 8);
                            assert(window_is(b@, p1 as int, enc_bytes(tx@)));
                        }
                    }
                }
                return None;
            },
            Some(v) => v,
        };
        proof {
            assert forall|x: TypeExtra| window_is(b@, pos as int, enc_extra(x)) implies
                extra_eqv(TypeExtra::Symlink(t), x) && p2 == pos + enc_extra(x).len() by {
                dec_extra_windows(b@, pos as int, x);
                lemma_enc_u64_len(extra_tag(x));
                assert(b@.subrange(pos as int, pos + 8) == enc_u64(extra_tag(x)));
                assert(pos + 8 <= b@.len());
                assert(enc_u64(tag) == b@.subrange(pos as int, pos + 8));
                lemma_enc_u64_inj(tag, extra_tag(x));
                if let TypeExtra::Symlink(tx) = x {
                    assert(p1 == pos + 8);
                    lemma_enc_bytes_len(tx@);
                    assert(window_is(b@, p1 as int, enc_bytes(tx@)));
                    assert(p1 + 8 + tx@.len() <= b@.len());
                    assert(b@.subrange(p1 as int, p1 + 8 + tx@.len()) == enc_bytes(tx@));
                    assert(t@ == tx@ && p2 == p1 + 8 + tx@.len());
                }
            }
        }
        return Some((TypeExtra::Symlink(t), p2));
    }
    if tag == 2 {
        let (cnt, p2) = match dec_u64_at(b, p1) {
            None => {
                proof {
                    assert forall|x: TypeExtra| window_is(b@, pos as int, enc_extra(x)) implies
                        false by {
                        dec_extra_windows(b@, pos as int, x);
                        lemma_enc_u64_len(extra_tag(x));
                        assert(b@.subrange(pos as int, pos + 8) == enc_u64(extra_tag(x)));
                        assert(pos + 8 <= b@.len());
                        assert(enc_u64(tag) == b@.subrange(pos as int, pos + 8));
                        lemma_enc_u64_inj(tag, extra_tag(x));
                    }
                }
                return None;
            },
            Some(v) => v,
        };
        let (entries, p3) = match dec_pairs_at(b, p2, cnt) {
            None => {
                proof {
                    assert forall|x: TypeExtra| window_is(b@, pos as int, enc_extra(x)) implies
                        false by {
                        dec_extra_windows(b@, pos as int, x);
                        lemma_enc_u64_len(extra_tag(x));
                        assert(b@.subrange(pos as int, pos + 8) == enc_u64(extra_tag(x)));
                        assert(pos + 8 <= b@.len());
                        assert(enc_u64(tag) == b@.subrange(pos as int, pos + 8));
                        lemma_enc_u64_inj(tag, extra_tag(x));
                        if let TypeExtra::Directory(dm) = x {
                            assert(p1 == pos + 8);
                            assert(window_is(b@, p1 as int, enc_u64(dm.pairs().len() as u64)));
                            lemma_enc_u64_inj(cnt, dm.pairs().len() as u64);
                            vstd::std_specs::vec::axiom_spec_len(&dm.entries);
                            assert(p2 == pos + 16);
                            assert(window_is(b@, p2 as int, enc_pairs(dm.pairs())));
                            assert(dm.pairs().len() == cnt);
                        }
                    }
                }
                return None;
            },
            Some(v) => v,
        };
        let dm_out = DirMap { entries };
        proof {
            assert forall|x: TypeExtra| window_is(b@, pos as int, #[trigger] enc_extra(x))
                implies extra_eqv(TypeExtra::Directory(dm_out), x) && p3 == pos + enc_extra(
                x,
            ).len() by {
                dec_extra_windows(b@, pos as int, x);
                lemma_enc_u64_len(extra_tag(x));
                assert(b@.subrange(pos as int, pos + 8) == enc_u64(extra_tag(x)));
                assert(pos + 8 <= b@.len());
                assert(enc_u64(tag) == b@.subrange(pos as int, pos + 8));
                lemma_enc_u64_inj(tag, extra_tag(x));
                if let TypeExtra::Directory(dm) = x {
                    assert(p1 == pos + 8);
                    lemma_enc_u64_len(dm.pairs().len() as u64);
                    assert(window_is(b@, p1 as int, enc_u64(dm.pairs().len() as u64)));
                    assert(p1 + 8 <= b@.len());
                    assert(enc_u64(cnt) == b@.subrange(p1 as int, p1 + 8));
                    assert(b@.subrange(p1 as int, p1 + 8) == enc_u64(dm.pairs().len() as u64));
                    lemma_enc_u64_inj(cnt, dm.pairs().len() as u64);
                    vstd::std_specs::vec::axiom_spec_len(&dm.entries);
                    assert(p2 == pos + 16);
                    assert(window_is(b@, p2 as int, enc_pairs(dm.pairs())));
                    assert(dm.pairs().len() == cnt);
                    assert(pairs_view(entries@) == dm.pairs());
                    assert(p3 == p2 + enc_pairs(dm.pairs()).len());
                    assert(dm_out.pairs() =~= pairs_view(dm_out.entries@));
                }
            }
        }
        return Some((TypeExtra::Directory(dm_out), p3));
    }
    proof {
        assert forall|x: TypeExtra| window_is(b@, pos as int, enc_extra(x)) implies false by {
            dec_extra_windows(b@, pos as int, x);
            lemma_enc_u64_inj(tag, extra_tag(x));
        }
    }
    None
}


/// The tag stored for each payload variant.
pub open spec fn extra_tag(x: TypeExtra) -> u64 {
    match x {
        TypeExtra::RegularFile => 0u64,
        TypeExtra::Symlink(_) => 1u64,
        TypeExtra::Directory(_) => 2u64,
    }
}

/// The windows that an encoded payload occupies, by variant.
proof fn dec_extra_windows(b: Seq<u8>, pos: int, x: TypeExtra)
    requires
        window_is(b, pos, enc_extra(x)),
    ensures
        window_is(b, pos, enc_u64(extra_tag(x))),
        x matches TypeExtra::Symlink(t) ==> window_is(b, pos + 8, enc_bytes(t@))
            && enc_extra(x).len() == 8 + 8 + t@.len(),
        x matches TypeExtra::Directory(dm) ==> window_is(
            b,
            pos + 8,
            enc_u64(dm.pairs().len() as u64),
        ) && window_is(b, pos + 16, enc_pairs(dm.pairs())) && enc_extra(x).len() == 16
            + enc_pairs(dm.pairs()).len(),
        x is RegularFile ==> enc_extra(x).len() == 8,
{
    match x {
        TypeExtra::RegularFile => {
        },
        TypeExtra::Symlink(t) => {
            lemma_window_split(b, pos, enc_u64(1), enc_bytes(t@));
        },
        TypeExtra::Directory(dm) => {
            lemma_window_split(
                b,
                pos,
                enc_u64(2),
                enc_u64(dm.pairs().len() as u64) + enc_pairs(dm.pairs()),
            );
            lemma_window_split(
                b,
                pos + 8,
                enc_u64(dm.pairs().len() as u64),
                enc_pairs(dm.pairs()),
            );
        },
    }
}

/// The windows that an encoded record occupies.
proof fn dec_info_windows(b: Seq<u8>, pos: int, fi: FileInfo)
    requires
        window_is(b, pos, enc_info(fi)),
    ensures
        window_is(b, pos, enc_u64(fi.parent)),
        window_is(b, pos + 8, enc_bytes(fi.path@)),
        window_is(b, pos + 16 + fi.path@.len(), enc_attr(fi.attr)),
        window_is(b, pos + 16 + fi.path@.len() + 152, enc_extra(fi.type_extra)),
        enc_info(fi).len() == 16 + fi.path@.len() + 152 + enc_extra(fi.type_extra).len(),
{
    lemma_enc_attr_len(fi.attr);
    lemma_window_split(
        b,
        pos,
        enc_u64(fi.parent),
        enc_bytes(fi.path@) + (enc_attr(fi.attr) + enc_extra(fi.type_extra)),
    );
    lemma_window_split(
        b,
        pos + 8,
        enc_bytes(fi.path@),
        enc_attr(fi.attr) + enc_extra(fi.type_extra),
    );
    lemma_window_split(
        b,
        pos + 8 + (8 + fi.path@.len()),
        enc_attr(fi.attr),
        enc_extra(fi.type_extra),
    );
}

/// Read one inode record: whenever the window at `pos` holds `enc_info(fi)`
/// for some record `fi`, an equivalent record comes back.
#[verifier::rlimit(100)]
pub fn dec_info_at(b: &Vec<u8>, pos: usize) -> (r: Option<(FileInfo, usize)>)
    ensures
        forall|fi: FileInfo|
            window_is(b@, pos as int, enc_info(fi)) ==> match r {
                Some(p) => info_eqv(p.0, fi) && p.1 == pos + enc_info(fi).len(),
                None => false,
            },
{
    let (parent, p1) = match dec_u64_at(b, pos) {
        None => {
            proof {
                assert forall|fi: FileInfo| window_is(b@, pos as int, enc_info(fi)) implies
                    false by {
                    dec_info_windows(b@, pos as int, fi);
                }
            }
            return None;
        },
        Some(v) => v,
    };
    let (path, p2) = match dec_bytes_at(b, p1) {
        None => {
            proof {
                assert forall|fi: FileInfo| window_is(b@, pos as int, enc_info(fi)) implies
                    false by {
                    dec_info_windows(b@, pos as int, fi);
                    assert(p1 == pos + 8);
                    assert(window_is(b@, p1 as int, enc_bytes(fi.path@)));
                }
            }
            return None;
        },
        Some(v) => v,
    };
    let (attr, p3) = match dec_attr_at(b, p2) {
        None => {
            proof {
                assert forall|fi: FileInfo| window_is(b@, pos as int, enc_info(fi)) implies
                    false by {
                    dec_info_windows(b@, pos as int, fi);
                    assert(p1 == pos + 8);
                    assert(window_is(b@, p1 as int, enc_bytes(fi.path@)));
                    assert(path@ == fi.path@ && p2 == p1 + 8 + fi.path@.len());
                    assert(window_is(b@, p2 as int, enc_attr(fi.attr)));
                }
            }
            return None;
        },
        Some(v) => v,
    };
    let (extra, p4) = match dec_extra_at(b, p3) {
        None => {
            proof {
                assert forall|fi: FileInfo| window_is(b@, pos as int, enc_info(fi)) implies
                    false by {
                    dec_info_windows(b@, pos as int, fi);
                    assert(p1 == pos + 8);
                    assert(window_is(b@, p1 as int, enc_bytes(fi.path@)));
                    assert(path@ == fi.path@ && p2 == p1 + 8 + fi.path@.len());
                    assert(window_is(b@, p2 as int, enc_attr(fi.attr)));
                    assert(attr == fi.attr && p3 == p2 + 152);
                    assert(window_is(b@, p3 as int, enc_extra(fi.type_extra)));
                }
            }
            return None;
        },
        Some(v) => v,
    };
    let out = FileInfo { parent, path, attr, type_extra: extra };
    proof {
        assert forall|fi: FileInfo| window_is(b@, pos as int, enc_info(fi)) implies info_eqv(
            out,
            fi,
        ) && p4 == pos + enc_info(fi).len() by {
            dec_info_windows(b@, pos as int, fi);
            lemma_enc_u64_inj(parent, fi.parent);
            assert(p1 == pos + 8);
            assert(window_is(b@, p1 as int, enc_bytes(fi.path@)));
            assert(path@ == fi.path@ && p2 == p1 + 8 + fi.path@.len());
            assert(window_is(b@, p2 as int, enc_attr(fi.attr)));
            assert(attr == fi.attr && p3 == p2 + 152);
            assert(window_is(b@, p3 as int, enc_extra(fi.type_extra)));
            assert(extra_eqv(extra, fi.type_extra) && p4 == p3 + enc_extra(fi.type_extra).len());
        }
    }
    Some((out, p4))
}

/// The window that the `i`-th record of an encoded tree occupies.
proof fn dec_infos_step(b: Seq<u8>, t: FileTree, i: int)
    requires
        b == enc_tree(t),
        0 <= i < t.infos@.len(),
    ensures
        window_is(
            b,
            8 + enc_infos(t.infos@.subrange(0, i)).len() as int,
            enc_info(t.infos@[i]),
        ),
{
    let s = t.infos@;
    assert(window_is(b, 0, enc_u64(s.len() as u64) + enc_infos(s))) by {
        assert(b.subrange(0, b.len() as int) =~= b);
    }
    lemma_window_split(b, 0, enc_u64(s.len() as u64), enc_infos(s));
    lemma_enc_infos_split(s, i);
    lemma_window_split(b, 8, enc_infos(s.subrange(0, i)), enc_infos(s.subrange(i, s.len() as int)));
    let tail = s.subrange(i, s.len() as int);
    assert(tail[0] == s[i]);
    assert(enc_infos(tail) == enc_info(s[i]) + enc_infos(tail.drop_first()));
    lemma_window_split(
        b,
        8 + enc_infos(s.subrange(0, i)).len() as int,
        enc_info(s[i]),
        enc_infos(tail.drop_first()),
    );
}

/// Parse a whole encoded tree. Whenever the input is `enc_tree(t)` for some
/// tree `t`, a tree equivalent to `t` comes back; trailing bytes or any
/// malformed content are rejected.
#[verifier::rlimit(100)]
pub fn decode_tree(b: &Vec<u8>) -> (r: Option<FileTree>)
    ensures
        forall|t: FileTree|
            b@ == enc_tree(t) ==> match r {
                Some(t2) => tree_eqv(t2, t),
                None => false,
            },
{
    let (count, p0) = match dec_u64_at(b, 0) {
        None => {
            proof {
                assert forall|t: FileTree| b@ == enc_tree(t) implies false by {
                    assert(b@.len() >= 8);
                }
            }
            return None;
        },
        Some(v) => v,
    };
    let mut infos: Vec<FileInfo> = Vec::new();
    let mut pos = p0;
    let mut i: u64 = 0;
    proof {
        assert forall|t: FileTree| b@ == enc_tree(t) implies count == t.infos@.len() && infos@.len()
            == 0 && pos == 8 + enc_infos(t.infos@.subrange(0, 0)).len() by {
            assert(window_is(b@, 0, enc_u64(t.infos@.len() as u64) + enc_infos(t.infos@))) by {
                assert(b@.subrange(0, b@.len() as int) =~= b@);
            }
            lemma_window_split(b@, 0, enc_u64(t.infos@.len() as u64), enc_infos(t.infos@));
            lemma_enc_u64_inj(count, t.infos@.len() as u64);
            vstd::std_specs::vec::axiom_spec_len(&t.infos);
            assert(t.infos@.subrange(0, 0) =~= Seq::<FileInfo>::empty());
        }
    }
    while i < count
        invariant
            i <= count,
            infos@.len() == i,
            forall|t: FileTree|
                b@ == enc_tree(t) ==> {
                    &&& count == t.infos@.len()
                    &&& (forall|k: int| 0 <= k < i ==> info_eqv(#[trigger] infos@[k], t.infos@[k]))
                    &&& pos == 8 + enc_infos(t.infos@.subrange(0, i as int)).len()
                },
        decreases count - i,
    {
        let (fi, p2) = match dec_info_at(b, pos) {
            None => {
                proof {
                    assert forall|t: FileTree| b@ == enc_tree(t) implies false by {
                        dec_infos_step(b@, t, i as int);
                        assert(window_is(b@, pos as int, enc_info(t.infos@[i as int])));
                    }
                }
                return None;
            },
            Some(v) => v,
        };
        infos.push(fi);
        proof {
            assert forall|t: FileTree| b@ == enc_tree(t) implies (forall|k: int|
                0 <= k < i + 1 ==> info_eqv(#[trigger] infos@[k], t.infos@[k])) && p2 == 8
                + enc_infos(t.infos@.subrange(0, i + 1)).len() by {
                dec_infos_step(b@, t, i as int);
                assert(window_is(b@, pos as int, enc_info(t.infos@[i as int])));
                assert(info_eqv(fi, t.infos@[i as int]));
                assert(p2 == pos + enc_info(t.infos@[i as int]).len());
                lemma_enc_infos_snoc(t.infos@, i as int);
            }
        }
        pos = p2;
        i += 1;
    }
    if pos != b.len() {
        proof {
            assert forall|t: FileTree| b@ == enc_tree(t) implies false by {
                assert(t.infos@.subrange(0, count as int) =~= t.infos@);
            }
        }
        return None;
    }
    let out = FileTree { infos };
    proof {
        assert forall|t: FileTree| b@ == enc_tree(t) implies tree_eqv(out, t) by {
            assert(t.infos@.subrange(0, count as int) =~= t.infos@);
        }
    }
    Some(out)
}

} // verus!
