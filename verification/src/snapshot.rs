//! Snapshot persistence: the tree's structural encoding wrapped in a zstd
//! frame. Saving a well-formed tree and loading the blob back yields an
//! equivalent tree; a blob that does not decompress, parse and validate is
//! rejected, and the caller falls back to a fresh scan.

use vstd::prelude::*;
use crate::codec::{decode_tree, enc_tree, encode_tree, tree_eqv};
use crate::tree::FileTree;
use crate::validate::check_wf;

verus! {

/// What the zstd stream encoder produces, at compression level 9, for
/// given input bytes.
pub uninterp spec fn zstd_frame(data: Seq<u8>) -> Seq<u8>;

/// Relies on zstd::stream::encode_all at level 9: single-threaded stream
/// compression, whose output is a function of the input bytes alone.
#[verifier::external_body]
fn zstd_compress(data: &Vec<u8>) -> (r: Result<Vec<u8>, ()>)
    ensures
        r matches Ok(v) ==> v@ == zstd_frame(data@),
{
    match zstd::stream::encode_all(data.as_slice(), 9) {
        Ok(v) => Ok(v),
        Err(_) => Err(()),
    }
}

/// Relies on zstd::stream::decode_all: the codec is lossless, so decoding
/// a frame that encode_all produced yields exactly the bytes that went in.
#[verifier::external_body]
fn zstd_decompress(data: &Vec<u8>) -> (r: Result<Vec<u8>, ()>)
    ensures
        r matches Ok(v) ==> forall|orig: Seq<u8>| data@ == zstd_frame(orig) ==> v@ == orig,
        r is Err ==> forall|orig: Seq<u8>| data@ != zstd_frame(orig),
{
    match zstd::stream::decode_all(data.as_slice()) {
        Ok(v) => Ok(v),
        Err(_) => Err(()),
    }
}

/// The snapshot blob owed for a tree.
pub open spec fn snapshot_of(t: FileTree) -> Seq<u8> {
    zstd_frame(enc_tree(t))
}

/// Serialize, then compress: the persisted form of the tree. `Err` only
/// when the compressor itself fails.
pub fn save(t: &FileTree) -> (r: Result<Vec<u8>, ()>)
    ensures
        r matches Ok(v) ==> v@ == snapshot_of(*t),
{
    let encoded = encode_tree(t);
    zstd_compress(&encoded)
}

/// Decompress, parse and validate. Law: loading a saved snapshot of any
/// well-formed tree yields an equivalent well-formed tree — save-then-load
/// is the identity up to views. Any other blob either fails or still
/// yields a well-formed tree.
pub fn load(blob: &Vec<u8>) -> (r: Option<FileTree>)
    ensures
        forall|t: FileTree|
            blob@ == snapshot_of(t) && t.wf() ==> (r matches Some(t2) && tree_eqv(t2, t)),
        r matches Some(t2) ==> t2.wf(),
{
    let raw = match zstd_decompress(blob) {
        Err(_) => {
            proof {
                assert forall|t: FileTree| blob@ == snapshot_of(t) && t.wf() implies false by {
                    assert(blob@ == zstd_frame(enc_tree(t)));
                }
            }
            return None;
        },
        Ok(v) => v,
    };
    let parsed = match decode_tree(&raw) {
        None => {
            proof {
                assert forall|t: FileTree| blob@ == snapshot_of(t) && t.wf() implies false by {
                    assert(blob@ == zstd_frame(enc_tree(t)));
                    assert(raw@ == enc_tree(t));
                }
            }
            return None;
        },
        Some(t2) => t2,
    };
    if check_wf(&parsed) {
        proof {
            assert forall|t: FileTree|
                blob@ == snapshot_of(t) && t.wf() implies tree_eqv(parsed, t) by {
                assert(blob@ == zstd_frame(enc_tree(t)));
                assert(raw@ == enc_tree(t));
            }
        }
        Some(parsed)
    } else {
        proof {
            assert forall|t: FileTree| blob@ == snapshot_of(t) && t.wf() implies false by {
                assert(blob@ == zstd_frame(enc_tree(t)));
                assert(raw@ == enc_tree(t));
                assert(tree_eqv(parsed, t));
                crate::validate::lemma_eqv_preserves_wf(parsed, t);
            }
        }
        None
    }
}

} // verus!
