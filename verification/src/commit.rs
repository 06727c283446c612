//! Commits: one point of the history, with the digest of its parent and the
//! digest of every tracked path, and the text in which a commit is stored.
//!
//! A stored commit holds the line `parent <digest>` where it has a parent,
//! then one line `blob <digest> <path>` for each tracked path, in ascending
//! order of the digests.

use crate::digest::{digest, digest_input_ok, is_digest, is_hex_char, sha1_hex};
use crate::error::TgitError;
use crate::filemap::{
    digest_order, lemma_orders, lemma_overlay_is_union, overlay, pairs_of, FileMap, Pair,
};
use crate::index::Index;
use crate::text::{
    holds_lines, lemma_lines_push, lines, plain_line, split_lines, substring, terminated, to_chars,
};
use vstd::prelude::*;
use vstd::string::*;
use vstd::utf8::{
    decode_utf8, encode_utf8, encode_utf8_decode_utf8, encode_utf8_valid_utf8, valid_utf8,
};

verus! {

/// What stands before the digest in the line that names the parent.
pub open spec fn parent_tag() -> Seq<char> {
    seq!['p', 'a', 'r', 'e', 'n', 't', ' ']
}

/// What stands before the digest in the line of a tracked path.
pub open spec fn blob_tag() -> Seq<char> {
    seq!['b', 'l', 'o', 'b', ' ']
}

/// The line that names the parent, without its line feed.
pub open spec fn parent_line(parent: Seq<char>) -> Seq<char> {
    parent_tag() + parent
}

/// The line of one tracked path, without its line feed.
pub open spec fn blob_line(e: Pair) -> Seq<char> {
    blob_tag() + e.1 + seq![' '] + e.0
}

/// The lines of the given entries in their order.
pub open spec fn blob_lines(s: Seq<Pair>) -> Seq<char>
    decreases s.len(),
{
    if s.len() == 0 {
        Seq::empty()
    } else {
        blob_lines(s.drop_last()) + blob_line(s.last()) + seq!['\n']
    }
}

/// The text of a commit with the given parent and the given entries.
pub open spec fn commit_text(parent: Option<Seq<char>>, s: Seq<Pair>) -> Seq<char> {
    let head = match parent {
        Some(p) => parent_line(p) + seq!['\n'],
        None => Seq::empty(),
    };
    head + blob_lines(s)
}

/// The parent that a line names: the line begins with `parent ` and 40
/// hexadecimal characters, which are the digest. What follows them is not
/// looked at.
pub open spec fn parent_of_line(line: Seq<char>) -> Option<Seq<char>> {
    if line.len() >= 47 && line.take(7) == parent_tag() && is_digest(line.subrange(7, 47)) {
        Some(line.subrange(7, 47))
    } else {
        None
    }
}

/// The entry that a line records: the line begins with `blob `, 40
/// hexadecimal characters and a space. Those characters are the digest, and
/// the rest of the line is the path.
pub open spec fn blob_of_line(line: Seq<char>) -> Option<Pair> {
    if line.len() >= 46 && line.take(5) == blob_tag() && is_digest(line.subrange(5, 45))
        && line[45] == ' ' {
        Some((line.skip(46), line.subrange(5, 45)))
    } else {
        None
    }
}

/// The parent that the given lines name: the last of them that names one
/// decides.
pub open spec fn parsed_parent(ls: Seq<Seq<char>>) -> Option<Seq<char>>
    decreases ls.len(),
{
    if ls.len() == 0 {
        None
    } else {
        match parent_of_line(ls.last()) {
            Some(p) => Some(p),
            None => parsed_parent(ls.drop_last()),
        }
    }
}

/// The entries that the given lines record: for a path that several lines
/// record, the last of them decides. Lines of no known form are passed over.
pub open spec fn parsed_files(ls: Seq<Seq<char>>) -> Map<Seq<char>, Seq<char>>
    decreases ls.len(),
{
    if ls.len() == 0 {
        Map::empty()
    } else {
        let before = parsed_files(ls.drop_last());
        match blob_of_line(ls.last()) {
            Some(e) => before.insert(e.0, e.1),
            None => before,
        }
    }
}

/// The characters of an optional string.
pub open spec fn opt_view(s: Option<String>) -> Option<Seq<char>> {
    match s {
        Some(s) => Some(s@),
        None => None,
    }
}

/// True if `c` is one of `0-9a-f`.
fn is_hex(c: char) -> (r: bool)
    ensures
        r == is_hex_char(c),
{
    (c >= '0' && c <= '9') || (c >= 'a' && c <= 'f')
}

/// True if the 40 characters of `line` from `from` on have the shape of a
/// digest.
fn digest_at(line: &Vec<char>, from: usize) -> (r: bool)
    requires
        from + 40 <= line.len(),
    ensures
        r == is_digest(line@.subrange(from as int, from + 40)),
{
    let ghost d = line@.subrange(from as int, from + 40);
    let mut i: usize = 0;
    while i < 40
        invariant
            i <= 40,
            from + 40 <= line.len(),
            d == line@.subrange(from as int, from + 40),
            forall|j: int| 0 <= j < i ==> is_hex_char(#[trigger] d[j]),
        decreases 40 - i,
    {
        if !is_hex(line[from + i]) {
            assert(!is_hex_char(d[i as int]));
            return false;
        }
        i += 1;
    }
    true
}

/// True if `line` begins with `tag`.
fn begins_with(line: &Vec<char>, tag: &Vec<char>) -> (r: bool)
    ensures
        r == (tag@.len() <= line@.len() && line@.take(tag@.len() as int) == tag@),
{
    let n = tag.len();
    if line.len() < n {
        return false;
    }
    let mut i: usize = 0;
    while i < n
        invariant
            n == tag.len(),
            n <= line.len(),
            i <= n,
            forall|j: int| 0 <= j < i ==> line@[j] == tag@[j],
        decreases n - i,
    {
        if line[i] != tag[i] {
            assert(line@.take(n as int)[i as int] != tag@[i as int]);
            return false;
        }
        i += 1;
    }
    assert(line@.take(n as int) =~= tag@);
    true
}

/// Reads a line as one that names the parent.
fn read_parent_line(line: &Vec<char>, tag: &Vec<char>) -> (r: Option<String>)
    requires
        tag@ == parent_tag(),
    ensures
        opt_view(r) == parent_of_line(line@),
{
    if line.len() >= 47 && begins_with(line, tag) && digest_at(line, 7) {
        Some(substring(line, 7, 47))
    } else {
        None
    }
}

/// Reads a line as one that records a tracked path: `(path, digest)`.
fn read_blob_line(line: &Vec<char>, tag: &Vec<char>) -> (r: Option<(String, String)>)
    requires
        tag@ == blob_tag(),
    ensures
        match r {
            Some((path, hash)) => blob_of_line(line@) == Some((path@, hash@)),
            None => blob_of_line(line@) is None,
        },
{
    if line.len() >= 46 && begins_with(line, tag) && digest_at(line, 5) && line[45] == ' ' {
        let hash = substring(line, 5, 45);
        let path = substring(line, 46, line.len());
        assert(line@.subrange(46, line@.len() as int) =~= line@.skip(46));
        Some((path, hash))
    } else {
        None
    }
}

/// One point of the history.
#[derive(Debug)]
pub struct Commit {
    /// The digest of the stored form. A commit has none before `update`.
    pub hash: Option<String>,
    /// The stored form. A commit has none before `update`.
    pub data: Option<Vec<u8>>,
    /// The digest of the commit before this one; the first commit has none.
    pub parent: Option<String>,
    /// The digest of every tracked path.
    pub files: FileMap,
}

impl Commit {
    /// The text in which this commit is stored.
    pub open spec fn spec_text(&self) -> Seq<char> {
        commit_text(opt_view(self.parent), digest_order(self.files@))
    }

    /// The bytes in which this commit is stored.
    pub open spec fn spec_data(&self) -> Seq<u8> {
        encode_utf8(self.spec_text())
    }

    /// True if the commit holds its stored form and the digest of it.
    pub open spec fn finalized(&self) -> bool {
        &&& self.data matches Some(data) && data@ == self.spec_data()
        &&& self.hash matches Some(hash) && hash@ == sha1_hex(self.spec_data())
    }

    /// A commit on top of `parent`: it names the digest of `parent` as its
    /// parent and tracks what `parent` tracks. It has no digest or stored form
    /// yet.
    pub fn new(parent: Option<&Commit>) -> (c: Commit)
        ensures
            c.hash is None,
            c.data is None,
            opt_view(c.parent) == (match parent {
                Some(p) => opt_view(p.hash),
                None => None,
            }),
            c.files@ == (match parent {
                Some(p) => p.files@,
                None => Map::<Seq<char>, Seq<char>>::empty(),
            }),
    {
        match parent {
            Some(p) => {
                let link = match &p.hash {
                    Some(hash) => Some(hash.clone()),
                    None => None,
                };
                Commit { hash: None, data: None, parent: link, files: p.files.clone() }
            },
            None => Commit { hash: None, data: None, parent: None, files: FileMap::new() },
        }
    }

    /// Tracks every path of the index with its staged digest, in place of
    /// the digest tracked for it before.
    pub fn add_from_index(&mut self, index: &Index)
        ensures
            final(self).files@ == old(self).files@.union_prefer_right(index.hashtree@),
            final(self).hash == old(self).hash,
            final(self).data == old(self).data,
            final(self).parent == old(self).parent,
    {
        self.files.extend(&index.hashtree);
    }

    /// The commit stored as the text `input` under the digest `hash`. No
    /// text is refused: lines of no known form are passed over, and the text
    /// is not held against the digest.
    pub fn from_string(hash: &str, input: &str) -> (r: Result<Commit, TgitError>)
        ensures
            r matches Ok(c) && {
                &&& opt_view(c.hash) == Some(hash@)
                &&& c.data is None
                &&& opt_view(c.parent) == parsed_parent(lines(input@))
                &&& c.files@ == parsed_files(lines(input@))
            },
    {
        let parent_mark = to_chars("parent ");
        let blob_mark = to_chars("blob ");
        proof {
            reveal_strlit("parent ");
            reveal_strlit("blob ");
            assert(parent_mark@ =~= parent_tag());
            assert(blob_mark@ =~= blob_tag());
        }
        let chars = to_chars(input);
        let rows = split_lines(&chars);
        let ghost ls = lines(input@);
        let mut parent: Option<String> = None;
        let mut files = FileMap::new();
        let n = rows.len();
        let mut i: usize = 0;
        proof {
            assert(ls.take(0) =~= Seq::<Seq<char>>::empty());
        }
        while i < n
            invariant
                n == rows.len(),
                i <= n,
                holds_lines(rows@, ls),
                parent_mark@ == parent_tag(),
                blob_mark@ == blob_tag(),
                opt_view(parent) == parsed_parent(ls.take(i as int)),
                files@ == parsed_files(ls.take(i as int)),
            decreases n - i,
        {
            let row = &rows[i];
            proof {
                assert(ls.take(i + 1).drop_last() =~= ls.take(i as int));
                assert(ls.take(i + 1).last() == row@);
            }
            if let Some(p) = read_parent_line(row, &parent_mark) {
                parent = Some(p);
            }
            if let Some((path, digest)) = read_blob_line(row, &blob_mark) {
                files.insert(path.as_str(), digest.as_str());
            }
            i += 1;
        }
        proof {
            assert(ls.take(n as int) =~= ls);
        }
        Ok(Commit { hash: Some(String::from_str(hash)), data: None, parent, files })
    }

    /// The text in which this commit is stored.
    pub fn render(&self) -> (text: String)
        ensures
            text@ == self.spec_text(),
            self.files@.dom().finite(),
    {
        let mut text = String::new();
        proof {
            reveal_strlit("parent ");
            reveal_strlit("blob ");
            reveal_strlit(" ");
            reveal_strlit("\n");
            assert("parent "@ =~= parent_tag());
            assert("blob "@ =~= blob_tag());
            assert(" "@ =~= seq![' ']);
            assert("\n"@ =~= seq!['\n']);
        }
        if let Some(p) = &self.parent {
            text.append("parent ");
            text.append(p.as_str());
            text.append("\n");
        }
        let ghost head = text@;
        let entries = self.files.entries_by_digest();
        let ghost s = pairs_of(entries@);
        let n = entries.len();
        let mut i: usize = 0;
        proof {
            assert(s.take(0) =~= Seq::<Pair>::empty());
            assert(text@ =~= head + blob_lines(s.take(0)));
        }
        while i < n
            invariant
                n == entries.len(),
                i <= n,
                s == pairs_of(entries@),
                "blob "@ == blob_tag(),
                " "@ == seq![' '],
                "\n"@ == seq!['\n'],
                text@ == head + blob_lines(s.take(i as int)),
            decreases n - i,
        {
            let e = &entries[i];
            text.append("blob ");
            text.append(e.hash.as_str());
            text.append(" ");
            text.append(e.path.as_str());
            text.append("\n");
            proof {
                let after = s.take(i + 1);
                assert(after.drop_last() =~= s.take(i as int));
                assert(after.last() == (e.path@, e.hash@));
                assert(text@ =~= head + (blob_lines(s.take(i as int)) + blob_line(after.last())
                    + seq!['\n']));
            }
            i += 1;
        }
        proof {
            assert(s.take(n as int) =~= s);
        }
        text
    }

    /// True if the stored form of this commit is short enough for the digest
    /// function, which is what `update` asks for.
    pub fn can_update(&self) -> (ok: bool)
        ensures
            ok == digest_input_ok(self.spec_data()),
    {
        let text = self.render();
        crate::digest::can_digest(text.as_str().as_bytes())
    }

    /// Finalizes the commit: fixes its stored form and computes the digest of
    /// exactly those bytes.
    pub fn update(&mut self)
        requires
            digest_input_ok(old(self).spec_data()),
        ensures
            final(self).parent == old(self).parent,
            final(self).files == old(self).files,
            final(self).finalized(),
            final(self).hash matches Some(hash) && is_digest(hash@),
            final(self).files@.dom().finite(),
    {
        let text = self.render();
        let data = text.as_str().as_bytes_vec();
        let hash = digest(data.as_slice());
        self.hash = Some(hash);
        self.data = Some(data);
    }
}

/// The commit that records the staged entries on top of `parent`: it tracks
/// what `parent` tracks, with the staged digest for every staged path. It is
/// not finalized yet.
pub fn commit(parent: Option<&Commit>, index: &Index) -> (c: Commit)
    ensures
        c.hash is None,
        c.data is None,
        opt_view(c.parent) == (match parent {
            Some(p) => opt_view(p.hash),
            None => None,
        }),
        c.files@ == (match parent {
            Some(p) => p.files@,
            None => Map::<Seq<char>, Seq<char>>::empty(),
        }).union_prefer_right(index.hashtree@),
{
    let mut c = Commit::new(parent);
    c.add_from_index(index);
    c
}

/// Two finalized commits with the same parent and the same entries have the
/// same stored form and the same digest: both depend on the parent and the
/// entries alone.
pub proof fn lemma_update_deterministic(c1: Commit, c2: Commit)
    requires
        c1.finalized(),
        c2.finalized(),
        opt_view(c1.parent) == opt_view(c2.parent),
        c1.files@ == c2.files@,
    ensures
        c1.data->0@ == c2.data->0@,
        c1.hash->0@ == c2.hash->0@,
{
}

/// A mapping that a stored commit can carry: every digest has the shape of a
/// digest, and every path holds no line feed and does not end in a carriage
/// return.
pub open spec fn storable_files(m: Map<Seq<char>, Seq<char>>) -> bool {
    forall|p: Seq<char>| #[trigger] m.dom().contains(p) ==> plain_line(p) && is_digest(m[p])
}

/// A digest holds neither a line feed nor a carriage return.
pub proof fn lemma_digest_chars(d: Seq<char>)
    requires
        is_digest(d),
    ensures
        forall|i: int| 0 <= i < d.len() ==> d[i] != '\n' && d[i] != '\r' && d[i] != ' ',
{
    assert forall|i: int| 0 <= i < d.len() implies d[i] != '\n' && d[i] != '\r' && d[i] != ' ' by {
        assert(is_hex_char(d[i]));
    }
}

/// The line written for a parent is read as naming that parent, and as no
/// entry.
pub proof fn lemma_parent_line_parses(p: Seq<char>)
    requires
        is_digest(p),
    ensures
        parent_of_line(parent_line(p)) == Some(p),
        blob_of_line(parent_line(p)) is None,
        plain_line(parent_line(p)),
{
    let line = parent_line(p);
    lemma_digest_chars(p);
    assert(line.take(7) =~= parent_tag());
    assert(line.subrange(7, 47) =~= p);
    assert(line.take(5)[0] != blob_tag()[0]);
    if line.contains('\n') {
        let j = choose|j: int| 0 <= j < line.len() && line[j] == '\n';
        if j >= 7 {
            assert(line[j] == p[j - 7]);
        }
    }
    assert(line.last() == p.last());
}

/// The line written for an entry is read as that entry, and as naming no
/// parent.
pub proof fn lemma_blob_line_parses(e: Pair)
    requires
        plain_line(e.0),
        is_digest(e.1),
    ensures
        blob_of_line(blob_line(e)) == Some(e),
        parent_of_line(blob_line(e)) is None,
        plain_line(blob_line(e)),
{
    let line = blob_line(e);
    lemma_digest_chars(e.1);
    assert(line.take(5) =~= blob_tag());
    assert(line.subrange(5, 45) =~= e.1);
    assert(line[45] == ' ');
    assert(line.skip(46) =~= e.0);
    if line.len() >= 47 {
        assert(line.take(7)[0] != parent_tag()[0]);
    }
    if line.contains('\n') {
        let j = choose|j: int| 0 <= j < line.len() && line[j] == '\n';
        if 5 <= j < 45 {
            assert(line[j] == e.1[j - 5]);
        } else if j >= 46 {
            assert(e.0.contains(e.0[j - 46]));
        }
    }
    if e.0.len() > 0 {
        assert(line.last() == e.0.last());
    }
}

/// The text written for a parent and entries that a commit can carry is read
/// as that parent and those entries, the later entry deciding for a path.
pub proof fn lemma_commit_text_parses(parent: Option<Seq<char>>, s: Seq<Pair>)
    requires
        parent matches Some(p) ==> is_digest(p),
        forall|i: int| 0 <= i < s.len() ==> plain_line((#[trigger] s[i]).0) && is_digest(s[i].1),
    ensures
        terminated(commit_text(parent, s)),
        parsed_parent(lines(commit_text(parent, s))) == parent,
        parsed_files(lines(commit_text(parent, s))) == overlay(Map::empty(), s),
    decreases s.len(),
{
    let text = commit_text(parent, s);
    if s.len() == 0 {
        match parent {
            Some(p) => {
                lemma_parent_line_parses(p);
                lemma_lines_push(Seq::empty(), parent_line(p));
                assert(text =~= Seq::<char>::empty() + parent_line(p) + seq!['\n']);
                let ls = lines(text);
                assert(ls =~= seq![parent_line(p)]);
                assert(ls.last() == parent_line(p));
                assert(ls.drop_last() =~= Seq::<Seq<char>>::empty());
                assert(parsed_files(ls.drop_last()) =~= Map::<Seq<char>, Seq<char>>::empty());
            },
            None => {
                assert(text =~= Seq::<char>::empty());
                assert(lines(text) =~= Seq::<Seq<char>>::empty());
            },
        }
    } else {
        let t = s.drop_last();
        let e = s.last();
        assert forall|i: int| 0 <= i < t.len() implies plain_line((#[trigger] t[i]).0) && is_digest(
            t[i].1,
        ) by {
            assert(t[i] == s[i]);
        }
        lemma_commit_text_parses(parent, t);
        lemma_blob_line_parses(e);
        let before = commit_text(parent, t);
        assert(text =~= before + blob_line(e) + seq!['\n']);
        lemma_lines_push(before, blob_line(e));
        let ls = lines(text);
        assert(ls.last() == blob_line(e));
        assert(ls.drop_last() =~= lines(before));
        assert(parsed_files(ls) == parsed_files(lines(before)).insert(e.0, e.1));
    }
}

/// Storing a commit and reading it again gives its parent and its entries
/// back: for every mapping of finitely many paths that a commit can carry,
/// and every parent that is absent or has the shape of a digest, the text
/// written for them is read as that parent and that mapping.
pub proof fn lemma_commit_round_trip(parent: Option<Seq<char>>, m: Map<Seq<char>, Seq<char>>)
    requires
        m.dom().finite(),
        parent matches Some(p) ==> is_digest(p),
        storable_files(m),
    ensures
        parsed_parent(lines(commit_text(parent, digest_order(m)))) == parent,
        parsed_files(lines(commit_text(parent, digest_order(m)))) == m,
{
    lemma_orders(m);
    let s = digest_order(m);
    assert forall|i: int| 0 <= i < s.len() implies plain_line((#[trigger] s[i]).0) && is_digest(
        s[i].1,
    ) by {
        assert(m.contains_pair(s[i].0, s[i].1));
    }
    lemma_commit_text_parses(parent, s);
    lemma_overlay_is_union(Map::empty(), s, m);
    assert(Map::<Seq<char>, Seq<char>>::empty().union_prefer_right(m) =~= m);
}

/// The bytes of a finalized commit are read as its parent and its entries:
/// decoding the stored form gives the text that the commit was written as.
pub proof fn lemma_stored_commit_round_trip(
    parent: Option<Seq<char>>,
    m: Map<Seq<char>, Seq<char>>,
)
    requires
        m.dom().finite(),
        parent matches Some(p) ==> is_digest(p),
        storable_files(m),
    ensures
        valid_utf8(encode_utf8(commit_text(parent, digest_order(m)))),
        parsed_parent(lines(decode_utf8(encode_utf8(commit_text(parent, digest_order(m))))))
            == parent,
        parsed_files(lines(decode_utf8(encode_utf8(commit_text(parent, digest_order(m))))))
            == m,
{
    let text = commit_text(parent, digest_order(m));
    encode_utf8_valid_utf8(text);
    encode_utf8_decode_utf8(text);
    lemma_commit_round_trip(parent, m);
}

/// A commit tracks every path that its parent tracks: what is staged for a
/// path decides its digest, every other path keeps the digest that the
/// parent tracks for it, and no further path is tracked.
pub proof fn lemma_commit_extends_parent(
    tracked_before: Map<Seq<char>, Seq<char>>,
    staged: Map<Seq<char>, Seq<char>>,
)
    ensures
        ({
            let now = tracked_before.union_prefer_right(staged);
            &&& tracked_before.dom().subset_of(now.dom())
            &&& staged.submap_of(now)
            &&& forall|p: Seq<char>|
                tracked_before.dom().contains(p) && !staged.dom().contains(p) ==> #[trigger] now[p]
                    == tracked_before[p]
            &&& forall|p: Seq<char>| #[trigger]
                now.dom().contains(p) ==> tracked_before.dom().contains(p) || staged.dom().contains(
                    p,
                )
        }),
{
}

} // verus!
