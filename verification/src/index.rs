//! The staging index: which digest is staged for which path. It is kept in a
//! file of one line per entry, a path and a digest with one space between
//! them, in ascending order of the paths. A line is read as its two tokens,
//! whatever whitespace parts them.

use crate::error::TgitError;
use crate::filemap::{lemma_overlay_is_union, lists, overlay, pairs_of, path_order, FileMap, Pair};
use crate::layout::{index_path, join_path, MARKER};
use crate::text::{
    holds_lines, is_whitespace, lemma_lines_push, lemma_tokens_first, lines, plain_line,
    split_lines, split_tokens, terminated, to_chars, tokens, whitespace_free,
};
use vstd::prelude::*;
use vstd::string::*;

verus! {

/// The line of the index file for one entry, without its line feed.
pub open spec fn index_line(e: Pair) -> Seq<char> {
    e.0 + seq![' '] + e.1
}

/// The text of an index file that holds the given entries in their order.
pub open spec fn index_text(s: Seq<Pair>) -> Seq<char>
    decreases s.len(),
{
    if s.len() == 0 {
        Seq::empty()
    } else {
        index_text(s.drop_last()) + index_line(s.last()) + seq!['\n']
    }
}

/// What a line of the index file says. A line is well formed when it holds
/// exactly two tokens, which are its maximal runs of characters that are no
/// whitespace: the first is the path and the second the digest. Whitespace
/// is what `is_whitespace` names: the characters with the Unicode property
/// `White_Space`, among them the space, the tab and the carriage return. It
/// may stand before, between and behind the tokens in any number.
pub open spec fn parse_index_line(line: Seq<char>) -> Option<Pair> {
    let ts = tokens(line);
    if ts.len() == 2 {
        Some((ts[0], ts[1]))
    } else {
        None
    }
}

/// True if every one of the lines is well formed.
pub open spec fn well_formed_lines(ls: Seq<Seq<char>>) -> bool {
    forall|i: int| 0 <= i < ls.len() ==> parse_index_line(#[trigger] ls[i]) is Some
}

/// The entries of well formed lines, in the order of the lines.
pub open spec fn pairs_of_lines(ls: Seq<Seq<char>>) -> Seq<Pair> {
    ls.map_values(|l: Seq<char>| parse_index_line(l)->0)
}

/// The mapping that an index file of the given text holds: each line
/// records its digest for its path, a later line before an earlier one. A
/// single malformed line makes the whole text invalid.
pub open spec fn parsed_index(text: Seq<char>) -> Option<Map<Seq<char>, Seq<char>>> {
    let ls = lines(text);
    if well_formed_lines(ls) {
        Some(overlay(Map::empty(), pairs_of_lines(ls)))
    } else {
        None
    }
}

/// Reads one line of the index file.
pub(crate) fn parse_line(line: &Vec<char>) -> (r: Option<(String, String)>)
    ensures
        match r {
            Some((path, hash)) => parse_index_line(line@) == Some((path@, hash@)),
            None => parse_index_line(line@) is None,
        },
{
    let mut fields = split_tokens(line);
    if fields.len() != 2 {
        return None;
    }
    let hash = fields.pop().unwrap();
    let path = fields.pop().unwrap();
    Some((path, hash))
}

/// The staging area of a repository.
#[derive(Debug)]
pub struct Index {
    /// Where the index file lies.
    pub path: String,
    /// The staged digest of each staged path.
    pub hashtree: FileMap,
}

impl Index {
    /// The index of the repository below `root_dir`, from what its index file
    /// holds: `None` where there is no such file yet, which gives the empty
    /// index. A file with a malformed line is refused as a whole.
    pub fn new(root_dir: &str, content: Option<&str>) -> (r: Result<Index, TgitError>)
        ensures
            match content {
                None => r matches Ok(ix) && ix.hashtree@ == Map::<Seq<char>, Seq<char>>::empty(),
                Some(text) => match parsed_index(text@) {
                    Some(m) => r matches Ok(ix) && ix.hashtree@ == m,
                    None => r matches Err(e) && e is InvalidIndex,
                },
            },
            r matches Ok(ix) ==> ix.path@ == index_path(root_dir@),
    {
        let dir = join_path(root_dir, MARKER);
        let path = join_path(dir.as_str(), "index");
        let mut hashtree = FileMap::new();
        if let Some(text) = content {
            let chars = to_chars(text);
            let rows = split_lines(&chars);
            let ghost ls = lines(text@);
            let n = rows.len();
            let mut i: usize = 0;
            while i < n
                invariant
                    n == rows.len(),
                    i <= n,
                    content == Some(text),
                    ls == lines(text@),
                    holds_lines(rows@, ls),
                    well_formed_lines(ls.take(i as int)),
                    hashtree@ == overlay(Map::empty(), pairs_of_lines(ls.take(i as int))),
                decreases n - i,
            {
                match parse_line(&rows[i]) {
                    None => {
                        assert(parse_index_line(ls[i as int]) is None);
                        return Err(TgitError::InvalidIndex);
                    },
                    Some((p, h)) => {
                        hashtree.insert(p.as_str(), h.as_str());
                        proof {
                            let before = ls.take(i as int);
                            let after = ls.take(i + 1);
                            assert(after.drop_last() =~= before);
                            assert(after.last() == ls[i as int]);
                            assert forall|j: int| 0 <= j < after.len() implies parse_index_line(
                                #[trigger] after[j],
                            ) is Some by {
                                if j < i {
                                    assert(after[j] == before[j]);
                                }
                            }
                            assert(pairs_of_lines(after).drop_last() =~= pairs_of_lines(before));
                            assert(pairs_of_lines(after).last() == (p@, h@));
                        }
                    },
                }
                i += 1;
            }
            proof {
                assert(ls.take(n as int) =~= ls);
            }
        }
        Ok(Index { path, hashtree })
    }

    /// Stages `hash` for `path`, in place of what was staged for it. The
    /// index file is not touched.
    pub fn update(&mut self, path: &str, hash: &str)
        ensures
            final(self).hashtree@ == old(self).hashtree@.insert(path@, hash@),
            final(self).path == old(self).path,
    {
        self.hashtree.insert(path, hash);
    }

    /// The text of the index file for what is staged now: one line for each
    /// entry, in ascending order of the paths. It replaces what the file held.
    pub fn write(&self) -> (content: String)
        ensures
            content@ == index_text(path_order(self.hashtree@)),
            self.hashtree@.dom().finite(),
    {
        let entries = self.hashtree.entries();
        let ghost s = pairs_of(entries@);
        let n = entries.len();
        let mut content = String::new();
        let mut i: usize = 0;
        proof {
            reveal_strlit(" ");
            reveal_strlit("\n");
            assert(" "@ =~= seq![' ']);
            assert("\n"@ =~= seq!['\n']);
            assert(s.take(0) =~= Seq::<Pair>::empty());
        }
        while i < n
            invariant
                n == entries.len(),
                i <= n,
                s == pairs_of(entries@),
                " "@ == seq![' '],
                "\n"@ == seq!['\n'],
                content@ == index_text(s.take(i as int)),
            decreases n - i,
        {
            let e = &entries[i];
            content.append(e.path.as_str());
            content.append(" ");
            content.append(e.hash.as_str());
            content.append("\n");
            proof {
                let after = s.take(i + 1);
                assert(after.drop_last() =~= s.take(i as int));
                assert(after.last() == (e.path@, e.hash@));
                assert(content@ =~= index_text(s.take(i as int)) + index_line(after.last()) + seq![
                    '\n',
                ]);
            }
            i += 1;
        }
        proof {
            assert(s.take(n as int) =~= s);
        }
        content
    }

    /// Unstages everything, and gives the text of the index file for that:
    /// the empty text.
    pub fn clear(&mut self) -> (content: String)
        ensures
            final(self).hashtree@ == Map::<Seq<char>, Seq<char>>::empty(),
            final(self).path == old(self).path,
            content@ == Seq::<char>::empty(),
            content@ == index_text(path_order(final(self).hashtree@)),
            parsed_index(content@) == Some(final(self).hashtree@),
    {
        self.hashtree = FileMap::new();
        let content = self.write();
        proof {
            lemma_empty_index();
        }
        content
    }
}

/// The empty mapping is written as the empty text, and the empty text is read
/// as the empty mapping.
pub proof fn lemma_empty_index()
    ensures
        index_text(path_order(Map::<Seq<char>, Seq<char>>::empty())) == Seq::<char>::empty(),
        parsed_index(Seq::<char>::empty()) == Some(Map::<Seq<char>, Seq<char>>::empty()),
{
    let m = Map::<Seq<char>, Seq<char>>::empty();
    let none = Seq::<Pair>::empty();
    assert(lists(none, m));
    crate::filemap::lemma_path_order_is(none, m);
    let ls = lines(Seq::<char>::empty());
    assert(ls =~= Seq::<Seq<char>>::empty());
    assert(pairs_of_lines(ls) =~= none);
}

/// A path that a line of the index file can carry: it is not empty and holds
/// no whitespace.
pub open spec fn storable_path(p: Seq<char>) -> bool {
    p.len() > 0 && whitespace_free(p)
}

/// A digest that a line of the index file can carry: it is not empty and
/// holds no whitespace.
pub open spec fn storable_digest(d: Seq<char>) -> bool {
    d.len() > 0 && whitespace_free(d)
}

/// A mapping that the index file can carry.
pub open spec fn storable(m: Map<Seq<char>, Seq<char>>) -> bool {
    forall|p: Seq<char>| #[trigger]
        m.dom().contains(p) ==> storable_path(p) && storable_digest(m[p])
}

/// The line written for an entry is read as that entry.
pub proof fn lemma_index_line_parses(e: Pair)
    requires
        storable_path(e.0),
        storable_digest(e.1),
    ensures
        parse_index_line(index_line(e)) == Some(e),
        plain_line(index_line(e)),
{
    let line = index_line(e);
    let k = e.0.len() as int;
    assert forall|j: int| 0 <= j < k implies !is_whitespace(#[trigger] line[j]) by {
        assert(line[j] == e.0[j]);
    }
    assert(line[k] == ' ');
    lemma_tokens_first(line, k);
    assert(line.take(k) =~= e.0);
    let rest = line.skip(k);
    assert(rest[0] == ' ');
    assert(rest.drop_first() =~= e.1);
    lemma_tokens_first(e.1, e.1.len() as int);
    assert(e.1.take(e.1.len() as int) =~= e.1);
    assert(tokens(e.1.skip(e.1.len() as int)) =~= Seq::<Seq<char>>::empty());
    assert(tokens(line) =~= seq![e.0, e.1]);
    if line.contains('\n') {
        let j = choose|j: int| 0 <= j < line.len() && line[j] == '\n';
        if j < k {
            assert(line[j] == e.0[j]);
        } else if j > k {
            assert(line[j] == e.1[j - k - 1]);
        }
    }
    assert(line.last() == e.1.last());
}

/// The text written for entries that the file can carry is read as those
/// entries, in their order.
pub proof fn lemma_index_text_parses(s: Seq<Pair>)
    requires
        forall|i: int|
            0 <= i < s.len() ==> storable_path((#[trigger] s[i]).0) && storable_digest(s[i].1),
    ensures
        terminated(index_text(s)),
        well_formed_lines(lines(index_text(s))),
        pairs_of_lines(lines(index_text(s))) == s,
    decreases s.len(),
{
    if s.len() == 0 {
        assert(lines(index_text(s)) =~= Seq::<Seq<char>>::empty());
        assert(pairs_of_lines(lines(index_text(s))) =~= s);
    } else {
        let t = s.drop_last();
        let e = s.last();
        assert forall|i: int| 0 <= i < t.len() implies storable_path((#[trigger] t[i]).0)
            && storable_digest(t[i].1) by {
            assert(t[i] == s[i]);
        }
        lemma_index_text_parses(t);
        lemma_index_line_parses(e);
        lemma_lines_push(index_text(t), index_line(e));
        let ls = lines(index_text(s));
        assert(ls == lines(index_text(t)).push(index_line(e)));
        assert forall|i: int| 0 <= i < ls.len() implies parse_index_line(#[trigger] ls[i]) is Some by {
            if i < ls.len() - 1 {
                assert(ls[i] == lines(index_text(t))[i]);
            }
        }
        assert(pairs_of_lines(ls) =~= pairs_of_lines(lines(index_text(t))).push(e));
        assert(pairs_of_lines(ls) =~= s);
    }
}

/// Writing the index file and reading it again gives the mapping back: for
/// every mapping of finitely many paths that the file can carry, the text
/// written for it is read as that mapping.
pub proof fn lemma_index_round_trip(m: Map<Seq<char>, Seq<char>>)
    requires
        m.dom().finite(),
        storable(m),
    ensures
        parsed_index(index_text(path_order(m))) == Some(m),
{
    crate::filemap::lemma_orders(m);
    let s = path_order(m);
    assert forall|i: int| 0 <= i < s.len() implies storable_path((#[trigger] s[i]).0)
        && storable_digest(s[i].1) by {
        assert(m.contains_pair(s[i].0, s[i].1));
    }
    lemma_index_text_parses(s);
    lemma_overlay_is_union(Map::empty(), s, m);
    assert(Map::<Seq<char>, Seq<char>>::empty().union_prefer_right(m) =~= m);
}

} // verus!
