//! The objects that the store holds.

use crate::digest::{digest, digest_input_ok, is_digest, sha1_hex};
use vstd::prelude::*;

verus! {

/// An entry of a directory tree. Commits record flat paths, so the library
/// never builds one.
#[derive(Debug)]
pub enum Tree {
    BlogEntry { name: String, hash: String },
    TreeEntry { name: String, hash: String, children: Vec<Tree> },
}

/// The contents of one file, with the digest under which they are stored.
#[derive(Debug)]
pub struct Blob {
    pub hash: String,
    pub data: Vec<u8>,
}

impl Blob {
    /// The blob of the given file contents.
    pub fn from_bytes(data: Vec<u8>) -> (blob: Blob)
        requires
            digest_input_ok(data@),
        ensures
            blob.data@ == data@,
            blob.hash@ == sha1_hex(data@),
            is_digest(blob.hash@),
    {
        let hash = digest(data.as_slice());
        Blob { hash, data }
    }
}

/// Two blobs of the same contents, each with the digest of its contents, have
/// the same digest.
pub proof fn lemma_blob_deterministic(b1: Blob, b2: Blob)
    requires
        b1.hash@ == sha1_hex(b1.data@),
        b2.hash@ == sha1_hex(b2.data@),
        b1.data@ == b2.data@,
    ensures
        b1.hash@ == b2.hash@,
{
}

} // verus!
