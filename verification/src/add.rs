//! Staging a file.

use crate::digest::{digest_input_ok, is_digest, sha1_hex};
use crate::file::{object_file, object_subdir, FileService, ObjectWrite};
use crate::index::Index;
use crate::types::Blob;
use vstd::prelude::*;

verus! {

/// Stages the file `path` with the contents `data`: the index records the
/// digest of the contents for the path, which has the shape of a digest, and
/// the result says where and how the contents are stored under that digest. `path` is relative to the directory that holds the
/// repository.
pub fn add_file(fs: &FileService, index: &mut Index, path: &str, data: Vec<u8>) -> (w: ObjectWrite)
    requires
        digest_input_ok(data@),
    ensures
        final(index).hashtree@ == old(index).hashtree@.insert(path@, sha1_hex(data@)),
        is_digest(sha1_hex(data@)),
        final(index).path == old(index).path,
        w.dir@ == object_subdir(fs.object_dir@, sha1_hex(data@)),
        w.file@ == object_file(fs.object_dir@, sha1_hex(data@)),
        w.data@ == data@,
{
    let blob = Blob::from_bytes(data);
    let w = fs.write_blob(&blob);
    index.update(path, blob.hash.as_str());
    w
}

} // verus!
