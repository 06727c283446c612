//! The layout of a repository on disk, and what is to be written where. The
//! functions here compute paths and contents; reading and writing the files
//! is the caller's part.

use crate::commit::{opt_view, parsed_files, parsed_parent, Commit};
use crate::digest::{digest_input_ok, is_digest};
use crate::error::TgitError;
use crate::layout::{head_path, index_path, join, join_path, object_dir, tgit_dir, MARKER};
use crate::text::{lines, substring, to_chars};
use crate::types::Blob;
use vstd::prelude::*;
use vstd::string::*;
use vstd::utf8::{decode_utf8, encode_utf8, encode_utf8_decode_utf8, valid_utf8};

verus! {

/// The directory of the object stored under `hash`, named by the first two
/// characters of the digest.
pub open spec fn object_subdir(object_dir: Seq<char>, hash: Seq<char>) -> Seq<char> {
    join(object_dir, hash.take(2))
}

/// The file of the object stored under `hash`, named by the digest without
/// its first two characters.
pub open spec fn object_file(object_dir: Seq<char>, hash: Seq<char>) -> Seq<char> {
    join(object_subdir(object_dir, hash), hash.skip(2))
}

/// Number of characters that stand before the path of the branch file in
/// `HEAD`.
pub const HEAD_PREFIX_LEN: usize = 6;

/// The file of the current branch, as `HEAD` with the contents `head` names
/// it: what follows the first six characters is its path below the
/// repository's own directory.
pub open spec fn branch_file(tgit_dir: Seq<char>, head: Seq<char>) -> Seq<char> {
    join(tgit_dir, head.skip(HEAD_PREFIX_LEN as int))
}

/// True if the candidate at `i` holds the marker and none before it does.
pub open spec fn first_marked(candidates: Seq<(String, bool)>, i: int) -> bool {
    &&& 0 <= i < candidates.len()
    &&& candidates[i].1
    &&& forall|j: int| 0 <= j < i ==> !(#[trigger] candidates[j]).1
}

/// An object to be stored: `dir` is created if it is missing, then `file` is
/// created or overwritten with `data`.
#[derive(Debug)]
pub struct ObjectWrite {
    pub dir: String,
    pub file: String,
    pub data: Vec<u8>,
}

/// A new tip of the current branch: the file `path` is overwritten with
/// `content`.
#[derive(Debug)]
pub struct RefWrite {
    pub path: String,
    pub content: Vec<u8>,
}

/// The directories of one repository.
#[derive(Debug)]
pub struct FileService {
    /// The directory that holds the repository.
    pub root_dir: String,
    /// The directory of the repository's own files.
    pub tgit_dir: String,
    /// The directory of the object store.
    pub object_dir: String,
}

impl FileService {
    /// The directories of the repository held by `root_dir`.
    pub fn new(root_dir: &str) -> (fs: FileService)
        ensures
            fs.root_dir@ == root_dir@,
            fs.tgit_dir@ == tgit_dir(root_dir@),
            fs.object_dir@ == object_dir(root_dir@),
    {
        let tgit_dir = join_path(root_dir, MARKER);
        let object_dir = join_path(tgit_dir.as_str(), "objects");
        FileService { root_dir: String::from_str(root_dir), tgit_dir, object_dir }
    }

    /// The directory that holds the repository: the first of the candidates
    /// that holds the marker directory. The candidates are the starting
    /// directory and its ancestors, nearest first, each with the answer
    /// whether it holds the marker.
    pub fn find_root(candidates: &Vec<(String, bool)>) -> (r: Result<String, TgitError>)
        ensures
            match r {
                Ok(root) => exists|i: int|
                    first_marked(candidates@, i) && root@ == (#[trigger] candidates[i]).0@,
                Err(e) => e is NoDirectory && forall|i: int|
                    0 <= i < candidates.len() ==> !(#[trigger] candidates[i]).1,
            },
    {
        let n = candidates.len();
        let mut i: usize = 0;
        while i < n
            invariant
                n == candidates.len(),
                i <= n,
                forall|j: int| 0 <= j < i ==> !(#[trigger] candidates[j]).1,
            decreases n - i,
        {
            if candidates[i].1 {
                assert(first_marked(candidates@, i as int));
                return Ok(candidates[i].0.clone());
            }
            i += 1;
        }
        Err(TgitError::NoDirectory)
    }

    /// The index file.
    pub fn index_file(&self) -> (path: String)
        ensures
            path@ == index_path(self.root_dir@),
    {
        let dir = join_path(self.root_dir.as_str(), MARKER);
        join_path(dir.as_str(), "index")
    }

    /// The file that names the current branch.
    pub fn head_file(&self) -> (path: String)
        ensures
            path@ == head_path(self.root_dir@),
    {
        let dir = join_path(self.root_dir.as_str(), MARKER);
        join_path(dir.as_str(), "HEAD")
    }

    /// The file of the current branch, which holds the digest of its tip.
    /// `head` is what `HEAD` holds.
    pub fn get_head_ref(&self, head: &str) -> (path: String)
        requires
            head@.len() >= HEAD_PREFIX_LEN,
        ensures
            path@ == branch_file(self.tgit_dir@, head@),
    {
        let chars = to_chars(head);
        let name = substring(&chars, HEAD_PREFIX_LEN, chars.len());
        assert(name@ =~= head@.skip(HEAD_PREFIX_LEN as int));
        join_path(self.tgit_dir.as_str(), name.as_str())
    }

    /// The tip that the current branch gets: its file is overwritten with the
    /// digest `hash`, and nothing else.
    pub fn record_new_head(&self, head: &str, hash: &str) -> (w: RefWrite)
        requires
            head@.len() >= HEAD_PREFIX_LEN,
        ensures
            w.path@ == branch_file(self.tgit_dir@, head@),
            w.content@ == encode_utf8(hash@),
    {
        RefWrite { path: self.get_head_ref(head), content: hash.as_bytes_vec() }
    }

    /// Where and how `data` is stored under the digest `hash`.
    pub fn write_object(&self, hash: &str, data: &Vec<u8>) -> (w: ObjectWrite)
        requires
            hash@.len() >= 2,
        ensures
            w.dir@ == object_subdir(self.object_dir@, hash@),
            w.file@ == object_file(self.object_dir@, hash@),
            w.data@ == data@,
    {
        let chars = to_chars(hash);
        let prefix = substring(&chars, 0, 2);
        let rest = substring(&chars, 2, chars.len());
        assert(prefix@ =~= hash@.take(2));
        assert(rest@ =~= hash@.skip(2));
        let dir = join_path(self.object_dir.as_str(), prefix.as_str());
        let file = join_path(dir.as_str(), rest.as_str());
        ObjectWrite { dir, file, data: data.clone() }
    }

    /// The file from which the object stored under `hash` is read.
    pub fn read_object(&self, hash: &str) -> (path: String)
        requires
            hash@.len() >= 2,
        ensures
            path@ == object_file(self.object_dir@, hash@),
    {
        let chars = to_chars(hash);
        let prefix = substring(&chars, 0, 2);
        let rest = substring(&chars, 2, chars.len());
        assert(prefix@ =~= hash@.take(2));
        assert(rest@ =~= hash@.skip(2));
        let dir = join_path(self.object_dir.as_str(), prefix.as_str());
        join_path(dir.as_str(), rest.as_str())
    }

    /// Where and how a blob is stored: its contents, under its digest.
    pub fn write_blob(&self, blob: &Blob) -> (w: ObjectWrite)
        requires
            blob.hash@.len() >= 2,
        ensures
            w.dir@ == object_subdir(self.object_dir@, blob.hash@),
            w.file@ == object_file(self.object_dir@, blob.hash@),
            w.data@ == blob.data@,
    {
        self.write_object(blob.hash.as_str(), &blob.data)
    }

    /// The commit that the bytes `data`, found in the store under `hash`,
    /// hold. Bytes that are no UTF-8 text hold no commit.
    pub fn read_commit(&self, hash: &str, data: &[u8]) -> (r: Result<Commit, TgitError>)
        ensures
            valid_utf8(data@) ==> (r matches Ok(c) && {
                &&& opt_view(c.hash) == Some(hash@)
                &&& c.data is None
                &&& opt_view(c.parent) == parsed_parent(lines(decode_utf8(data@)))
                &&& c.files@ == parsed_files(lines(decode_utf8(data@)))
            }),
            !valid_utf8(data@) ==> (r matches Err(e) && e is InvalidCommit),
    {
        match core::str::from_utf8(data) {
            Ok(text) => {
                proof {
                    encode_utf8_decode_utf8(text@);
                }
                Commit::from_string(hash, text)
            },
            Err(_) => Err(TgitError::InvalidCommit),
        }
    }

    /// Finalizes `commit`, and says where and how it is stored: its stored
    /// form, under its digest.
    pub fn write_commit(&self, commit: &mut Commit) -> (w: ObjectWrite)
        requires
            digest_input_ok(old(commit).spec_data()),
        ensures
            final(commit).parent == old(commit).parent,
            final(commit).files == old(commit).files,
            final(commit).finalized(),
            final(commit).hash matches Some(hash) && is_digest(hash@) && w.dir@ == object_subdir(
                self.object_dir@,
                hash@,
            ) && w.file@ == object_file(self.object_dir@, hash@),
            w.data@ == final(commit).spec_data(),
            final(commit).files@.dom().finite(),
    {
        commit.update();
        let hash = commit.hash.as_ref().unwrap();
        let data = commit.data.as_ref().unwrap();
        self.write_object(hash.as_str(), data)
    }
}

/// Objects stored under different digests lie in different files: the file
/// of an object determines the digest.
pub proof fn lemma_object_file_injective(dir: Seq<char>, h1: Seq<char>, h2: Seq<char>)
    requires
        h1.len() >= 2,
        h2.len() >= 2,
        object_file(dir, h1) == object_file(dir, h2),
    ensures
        h1 == h2,
{
    let f1 = object_file(dir, h1);
    let f2 = object_file(dir, h2);
    let d = dir.len() as int;
    assert(f1.len() == d + 2 + h1.len());
    assert(f2.len() == d + 2 + h2.len());
    assert forall|i: int| 0 <= i < h1.len() implies h1[i] == h2[i] by {
        if i < 2 {
            assert(f1[d + 1 + i] == h1.take(2)[i]);
            assert(f2[d + 1 + i] == h2.take(2)[i]);
        } else {
            assert(f1[d + 2 + i] == h1.skip(2)[i - 2]);
            assert(f2[d + 2 + i] == h2.skip(2)[i - 2]);
        }
    }
    assert(h1 =~= h2);
}

} // verus!
