//! The mapping from paths to digests that both the index and a commit hold.
//!
//! Its model is a `Map` from path to digest. The two orders in which such a
//! mapping is written out, by path and by digest, are functions of that map.

use crate::text::{
    lemma_str_lt_asymmetric, lemma_str_lt_irreflexive, lemma_str_lt_total,
    lemma_str_lt_transitive, str_lt, str_order, Order,
};
use vstd::prelude::*;
use vstd::string::*;

verus! {

/// A path with the digest recorded for it: `(path, digest)`.
pub type Pair = (Seq<char>, Seq<char>);

/// One path with the digest of the contents recorded for it.
#[derive(Debug)]
pub struct Entry {
    pub path: String,
    pub hash: String,
}

impl View for Entry {
    type V = Pair;

    open spec fn view(&self) -> Pair {
        (self.path@, self.hash@)
    }
}

/// The pairs of the given entries, in their order.
pub open spec fn pairs_of(entries: Seq<Entry>) -> Seq<Pair> {
    entries.map_values(|e: Entry| e@)
}

/// The order of the index file: by path.
pub open spec fn path_lt(a: Pair, b: Pair) -> bool {
    str_lt(a.0, b.0)
}

/// The order of a commit object: by digest, and by path among equal digests.
pub open spec fn digest_lt(a: Pair, b: Pair) -> bool {
    str_lt(a.1, b.1) || (a.1 == b.1 && str_lt(a.0, b.0))
}

/// True if the paths of `s` ascend strictly.
pub open spec fn sorted_by_path(s: Seq<Pair>) -> bool {
    forall|i: int, j: int| 0 <= i < j < s.len() ==> path_lt(#[trigger] s[i], #[trigger] s[j])
}

/// True if the pairs of `s` ascend strictly in the order of a commit object.
pub open spec fn sorted_by_digest(s: Seq<Pair>) -> bool {
    forall|i: int, j: int| 0 <= i < j < s.len() ==> digest_lt(#[trigger] s[i], #[trigger] s[j])
}

/// True if the sequence `s` holds the pairs of the map `m` and no others.
pub open spec fn lists(s: Seq<Pair>, m: Map<Seq<char>, Seq<char>>) -> bool {
    &&& forall|i: int| 0 <= i < s.len() ==> m.contains_pair((#[trigger] s[i]).0, s[i].1)
    &&& forall|p: Seq<char>| #[trigger]
        m.dom().contains(p) ==> exists|i: int| 0 <= i < s.len() && (#[trigger] s[i]).0 == p
}

/// The pairs of `m` in ascending order of their paths.
pub open spec fn path_order(m: Map<Seq<char>, Seq<char>>) -> Seq<Pair> {
    choose|s: Seq<Pair>| sorted_by_path(s) && lists(s, m)
}

/// The pairs of `m` in ascending order of their digests, those of one digest
/// in ascending order of their paths.
pub open spec fn digest_order(m: Map<Seq<char>, Seq<char>>) -> Seq<Pair> {
    choose|s: Seq<Pair>| sorted_by_digest(s) && lists(s, m)
}

/// The map that takes each path of `s` to the digest beside it.
pub open spec fn map_of(s: Seq<Pair>) -> Map<Seq<char>, Seq<char>> {
    Map::new(
        |p: Seq<char>| exists|i: int| 0 <= i < s.len() && (#[trigger] s[i]).0 == p,
        |p: Seq<char>| s[choose|i: int| 0 <= i < s.len() && (#[trigger] s[i]).0 == p].1,
    )
}

/// True if no path occurs twice in `s`.
pub open spec fn distinct_paths(s: Seq<Pair>) -> bool {
    forall|i: int, j: int|
        0 <= i < s.len() && 0 <= j < s.len() && i != j ==> (#[trigger] s[i]).0 != (#[trigger] s[j]).0
}

/// The order of a commit object is transitive.
pub proof fn lemma_digest_lt_transitive(a: Pair, b: Pair, c: Pair)
    requires
        digest_lt(a, b),
        digest_lt(b, c),
    ensures
        digest_lt(a, c),
{
    lemma_str_lt_irreflexive(a.1);
    lemma_str_lt_irreflexive(b.1);
    if str_lt(a.1, b.1) && str_lt(b.1, c.1) {
        lemma_str_lt_transitive(a.1, b.1, c.1);
    }
    if a.1 == b.1 && b.1 == c.1 {
        lemma_str_lt_transitive(a.0, b.0, c.0);
    }
}

/// No pair stands before itself in the order of a commit object.
pub proof fn lemma_digest_lt_irreflexive(a: Pair)
    ensures
        !digest_lt(a, a),
{
    lemma_str_lt_irreflexive(a.0);
    lemma_str_lt_irreflexive(a.1);
}

/// Of two different pairs, one stands before the other in the order of a
/// commit object.
pub proof fn lemma_digest_lt_total(a: Pair, b: Pair)
    ensures
        a == b || digest_lt(a, b) || digest_lt(b, a),
{
    lemma_str_lt_total(a.0, b.0);
    lemma_str_lt_total(a.1, b.1);
}

/// Paths that ascend strictly are all different.
pub proof fn lemma_sorted_by_path_distinct(s: Seq<Pair>)
    requires
        sorted_by_path(s),
    ensures
        distinct_paths(s),
{
    assert forall|i: int, j: int|
        0 <= i < s.len() && 0 <= j < s.len() && i != j implies (#[trigger] s[i]).0 != (
    #[trigger] s[j]).0 by {
        if i < j {
            lemma_str_lt_asymmetric(s[i].0, s[j].0);
        } else {
            lemma_str_lt_asymmetric(s[j].0, s[i].0);
        }
    }
}

/// A sequence in which no path occurs twice lists its own map.
pub proof fn lemma_lists_map_of(s: Seq<Pair>)
    requires
        distinct_paths(s),
    ensures
        lists(s, map_of(s)),
{
    let m = map_of(s);
    assert forall|i: int| 0 <= i < s.len() implies m.contains_pair((#[trigger] s[i]).0, s[i].1) by {
        let p = s[i].0;
        let j = choose|j: int| 0 <= j < s.len() && (#[trigger] s[j]).0 == p;
        assert(j == i);
    }
}

/// A map is determined by a sequence that lists it.
pub proof fn lemma_lists_same_map(
    s: Seq<Pair>,
    m1: Map<Seq<char>, Seq<char>>,
    m2: Map<Seq<char>, Seq<char>>,
)
    requires
        lists(s, m1),
        lists(s, m2),
    ensures
        m1 == m2,
{
    assert forall|p: Seq<char>| m1.dom().contains(p) implies m2.dom().contains(p) && m1[p]
        == m2[p] by {
        let i = choose|i: int| 0 <= i < s.len() && (#[trigger] s[i]).0 == p;
        assert(m2.contains_pair(s[i].0, s[i].1));
    }
    assert forall|p: Seq<char>| m2.dom().contains(p) implies m1.dom().contains(p) by {
        let i = choose|i: int| 0 <= i < s.len() && (#[trigger] s[i]).0 == p;
        assert(m1.contains_pair(s[i].0, s[i].1));
    }
    assert(m1 =~= m2);
}

/// Two sequences that list one map hold the same pairs.
pub proof fn lemma_lists_same_pairs(s1: Seq<Pair>, s2: Seq<Pair>, m: Map<Seq<char>, Seq<char>>)
    requires
        lists(s1, m),
        lists(s2, m),
    ensures
        forall|i: int| 0 <= i < s1.len() ==> s2.contains(#[trigger] s1[i]),
{
    assert forall|i: int| 0 <= i < s1.len() implies s2.contains(#[trigger] s1[i]) by {
        let p = s1[i].0;
        assert(m.contains_pair(s1[i].0, s1[i].1));
        let j = choose|j: int| 0 <= j < s2.len() && (#[trigger] s2[j]).0 == p;
        assert(m.contains_pair(s2[j].0, s2[j].1));
        assert(s2[j] == s1[i]);
    }
}

/// Two sequences that hold the same elements, each in strictly ascending
/// order of one and the same transitive, irreflexive relation, are equal.
pub proof fn lemma_ascending_unique(s1: Seq<Pair>, s2: Seq<Pair>, lt: spec_fn(Pair, Pair) -> bool)
    requires
        forall|a: Pair| !#[trigger] lt(a, a),
        forall|a: Pair, b: Pair, c: Pair| #[trigger] lt(a, b) && #[trigger] lt(b, c) ==> lt(a, c),
        forall|i: int, j: int| 0 <= i < j < s1.len() ==> lt(#[trigger] s1[i], #[trigger] s1[j]),
        forall|i: int, j: int| 0 <= i < j < s2.len() ==> lt(#[trigger] s2[i], #[trigger] s2[j]),
        forall|i: int| 0 <= i < s1.len() ==> s2.contains(#[trigger] s1[i]),
        forall|i: int| 0 <= i < s2.len() ==> s1.contains(#[trigger] s2[i]),
    ensures
        s1 == s2,
    decreases s1.len(),
{
    if s1.len() == 0 {
        if s2.len() > 0 {
            assert(s1.contains(s2[0]));
        }
        assert(s1 =~= s2);
    } else {
        assert(s2.contains(s1[0]));
        let j = choose|j: int| 0 <= j < s2.len() && s2[j] == s1[0];
        assert(s1.contains(s2[0]));
        let i = choose|i: int| 0 <= i < s1.len() && s1[i] == s2[0];
        if i > 0 {
            assert(lt(s1[0], s1[i]));
            if j > 0 {
                assert(lt(s2[0], s2[j]));
            }
        }
        assert(s1[0] == s2[0]);
        let t1 = s1.drop_first();
        let t2 = s2.drop_first();
        assert forall|k: int| 0 <= k < t1.len() implies t2.contains(#[trigger] t1[k]) by {
            assert(t1[k] == s1[k + 1]);
            assert(s2.contains(s1[k + 1]));
            let l = choose|l: int| 0 <= l < s2.len() && s2[l] == s1[k + 1];
            if l == 0 {
                assert(lt(s1[0], s1[k + 1]));
            }
            assert(t2[l - 1] == s2[l]);
        }
        assert forall|k: int| 0 <= k < t2.len() implies t1.contains(#[trigger] t2[k]) by {
            assert(t2[k] == s2[k + 1]);
            assert(s1.contains(s2[k + 1]));
            let l = choose|l: int| 0 <= l < s1.len() && s1[l] == s2[k + 1];
            if l == 0 {
                assert(lt(s2[0], s2[k + 1]));
            }
            assert(t1[l - 1] == s1[l]);
        }
        assert forall|a: int, b: int| 0 <= a < b < t1.len() implies lt(
            #[trigger] t1[a],
            #[trigger] t1[b],
        ) by {
            assert(lt(s1[a + 1], s1[b + 1]));
        }
        assert forall|a: int, b: int| 0 <= a < b < t2.len() implies lt(
            #[trigger] t2[a],
            #[trigger] t2[b],
        ) by {
            assert(lt(s2[a + 1], s2[b + 1]));
        }
        lemma_ascending_unique(t1, t2, lt);
        assert(s1 =~= seq![s1[0]] + t1);
        assert(s2 =~= seq![s2[0]] + t2);
    }
}

/// A map has at most one listing in ascending order of the paths.
pub proof fn lemma_path_order_unique(s1: Seq<Pair>, s2: Seq<Pair>, m: Map<Seq<char>, Seq<char>>)
    requires
        sorted_by_path(s1),
        lists(s1, m),
        sorted_by_path(s2),
        lists(s2, m),
    ensures
        s1 == s2,
{
    let lt = |a: Pair, b: Pair| path_lt(a, b);
    assert forall|a: Pair| !#[trigger] lt(a, a) by {
        lemma_str_lt_irreflexive(a.0);
    }
    assert forall|a: Pair, b: Pair, c: Pair| #[trigger] lt(a, b) && #[trigger] lt(b, c) implies lt(
        a,
        c,
    ) by {
        lemma_str_lt_transitive(a.0, b.0, c.0);
    }
    lemma_lists_same_pairs(s1, s2, m);
    lemma_lists_same_pairs(s2, s1, m);
    lemma_ascending_unique(s1, s2, lt);
}

/// A map has at most one listing in ascending order of the digests.
pub proof fn lemma_digest_order_unique(s1: Seq<Pair>, s2: Seq<Pair>, m: Map<Seq<char>, Seq<char>>)
    requires
        sorted_by_digest(s1),
        lists(s1, m),
        sorted_by_digest(s2),
        lists(s2, m),
    ensures
        s1 == s2,
{
    let lt = |a: Pair, b: Pair| digest_lt(a, b);
    assert forall|a: Pair| !#[trigger] lt(a, a) by {
        lemma_digest_lt_irreflexive(a);
    }
    assert forall|a: Pair, b: Pair, c: Pair| #[trigger] lt(a, b) && #[trigger] lt(b, c) implies lt(
        a,
        c,
    ) by {
        lemma_digest_lt_transitive(a, b, c);
    }
    lemma_lists_same_pairs(s1, s2, m);
    lemma_lists_same_pairs(s2, s1, m);
    lemma_ascending_unique(s1, s2, lt);
}

/// A listing of `m` by path is the listing of `m` by path.
pub proof fn lemma_path_order_is(s: Seq<Pair>, m: Map<Seq<char>, Seq<char>>)
    requires
        sorted_by_path(s),
        lists(s, m),
    ensures
        path_order(m) == s,
{
    lemma_path_order_unique(path_order(m), s, m);
}

/// A listing of `m` by digest is the listing of `m` by digest.
pub proof fn lemma_digest_order_is(s: Seq<Pair>, m: Map<Seq<char>, Seq<char>>)
    requires
        sorted_by_digest(s),
        lists(s, m),
    ensures
        digest_order(m) == s,
{
    lemma_digest_order_unique(digest_order(m), s, m);
}

/// Putting a new path into a listing by path, at its place.
pub proof fn lemma_insert_at(
    s: Seq<Pair>,
    m: Map<Seq<char>, Seq<char>>,
    i: int,
    path: Seq<char>,
    hash: Seq<char>,
)
    requires
        sorted_by_path(s),
        lists(s, m),
        0 <= i <= s.len(),
        forall|j: int| 0 <= j < i ==> str_lt((#[trigger] s[j]).0, path),
        i < s.len() ==> str_lt(path, s[i].0),
    ensures
        sorted_by_path(s.insert(i, (path, hash))),
        lists(s.insert(i, (path, hash)), m.insert(path, hash)),
{
    let t = s.insert(i, (path, hash));
    assert forall|k: int| i <= k < s.len() implies str_lt(path, (#[trigger] s[k]).0) by {
        if k > i {
            assert(path_lt(s[i], s[k]));
            lemma_str_lt_transitive(path, s[i].0, s[k].0);
        }
    }
    assert forall|a: int, b: int| 0 <= a < b < t.len() implies path_lt(
        #[trigger] t[a],
        #[trigger] t[b],
    ) by {
        if b < i {
            assert(path_lt(s[a], s[b]));
        } else if b == i {
            assert(str_lt(s[a].0, path));
        } else if a < i {
            assert(t[b] == s[b - 1]);
            if a < b - 1 {
                assert(path_lt(s[a], s[b - 1]));
            } else {
                lemma_str_lt_transitive(s[a].0, path, s[b - 1].0);
            }
        } else if a == i {
            assert(t[b] == s[b - 1]);
        } else {
            assert(t[a] == s[a - 1]);
            assert(t[b] == s[b - 1]);
            assert(path_lt(s[a - 1], s[b - 1]));
        }
    }
    assert(!m.dom().contains(path)) by {
        if m.dom().contains(path) {
            let j = choose|j: int| 0 <= j < s.len() && (#[trigger] s[j]).0 == path;
            lemma_str_lt_irreflexive(path);
        }
    }
    lemma_lists_insert(s, m, i, path, hash);
}

/// Giving a path of a listing by path another digest.
pub proof fn lemma_replace_at(s: Seq<Pair>, m: Map<Seq<char>, Seq<char>>, i: int, hash: Seq<char>)
    requires
        sorted_by_path(s),
        lists(s, m),
        0 <= i < s.len(),
    ensures
        sorted_by_path(s.update(i, (s[i].0, hash))),
        lists(s.update(i, (s[i].0, hash)), m.insert(s[i].0, hash)),
{
    let path = s[i].0;
    let t = s.update(i, (path, hash));
    let m2 = m.insert(path, hash);
    lemma_sorted_by_path_distinct(s);
    assert forall|a: int, b: int| 0 <= a < b < t.len() implies path_lt(
        #[trigger] t[a],
        #[trigger] t[b],
    ) by {
        assert(path_lt(s[a], s[b]));
    }
    assert forall|k: int| 0 <= k < t.len() implies m2.contains_pair((#[trigger] t[k]).0, t[k].1) by {
        if k != i {
            assert(t[k] == s[k]);
            assert(s[k].0 != s[i].0);
            assert(m.contains_pair(s[k].0, s[k].1));
        }
    }
    assert forall|p: Seq<char>| #[trigger] m2.dom().contains(p) implies exists|k: int|
        0 <= k < t.len() && (#[trigger] t[k]).0 == p by {
        if p == path {
            assert(t[i].0 == p);
        } else {
            assert(m.dom().contains(p));
            let j = choose|j: int| 0 <= j < s.len() && (#[trigger] s[j]).0 == p;
            assert(t[j].0 == p);
        }
    }
}

/// Putting a pair that a listing by digest does not hold yet at its place.
pub proof fn lemma_digest_insert_at(s: Seq<Pair>, pos: int, e: Pair)
    requires
        sorted_by_digest(s),
        0 <= pos <= s.len(),
        forall|k: int| 0 <= k < pos ==> digest_lt(#[trigger] s[k], e),
        pos < s.len() ==> !digest_lt(s[pos], e),
        !s.contains(e),
    ensures
        sorted_by_digest(s.insert(pos, e)),
{
    let t = s.insert(pos, e);
    assert forall|k: int| pos <= k < s.len() implies digest_lt(e, #[trigger] s[k]) by {
        assert(s.contains(s[pos]));
        lemma_digest_lt_total(s[pos], e);
        if k > pos {
            assert(digest_lt(s[pos], s[k]));
            lemma_digest_lt_transitive(e, s[pos], s[k]);
        }
    }
    assert forall|a: int, b: int| 0 <= a < b < t.len() implies digest_lt(
        #[trigger] t[a],
        #[trigger] t[b],
    ) by {
        if b < pos {
            assert(digest_lt(s[a], s[b]));
        } else if b == pos {
            assert(digest_lt(s[a], e));
        } else if a < pos {
            assert(t[b] == s[b - 1]);
            if a < b - 1 {
                assert(digest_lt(s[a], s[b - 1]));
            } else {
                lemma_digest_lt_transitive(s[a], e, s[b - 1]);
            }
        } else if a == pos {
            assert(t[b] == s[b - 1]);
        } else {
            assert(t[a] == s[a - 1]);
            assert(t[b] == s[b - 1]);
            assert(digest_lt(s[a - 1], s[b - 1]));
        }
    }
}

/// The map `m` after each pair of `s` was recorded in it, first to last.
pub open spec fn overlay(m: Map<Seq<char>, Seq<char>>, s: Seq<Pair>) -> Map<Seq<char>, Seq<char>>
    decreases s.len(),
{
    if s.len() == 0 {
        m
    } else {
        overlay(m, s.drop_last()).insert(s.last().0, s.last().1)
    }
}

/// Recording the pairs of a listing of `m2` in `m1` gives the union of the
/// two maps in which `m2` decides where both hold a path.
pub proof fn lemma_overlay_is_union(
    m1: Map<Seq<char>, Seq<char>>,
    s: Seq<Pair>,
    m2: Map<Seq<char>, Seq<char>>,
)
    requires
        lists(s, m2),
    ensures
        overlay(m1, s) == m1.union_prefer_right(m2),
    decreases s.len(),
{
    if s.len() == 0 {
        assert(m2.dom() =~= Set::<Seq<char>>::empty());
        assert(m1.union_prefer_right(m2) =~= m1);
    } else {
        let t = s.drop_last();
        let last = s.last();
        let r = m2.restrict(
            Set::new(|p: Seq<char>| exists|i: int| 0 <= i < t.len() && (#[trigger] t[i]).0 == p),
        );
        assert(m2.contains_pair(last.0, last.1));
        assert forall|i: int| 0 <= i < t.len() implies r.contains_pair((#[trigger] t[i]).0, t[i].1) by {
            assert(t[i] == s[i]);
            assert(m2.contains_pair(s[i].0, s[i].1));
        }
        assert(lists(t, r));
        lemma_overlay_is_union(m1, t, r);
        assert forall|p: Seq<char>| #[trigger] m2.dom().contains(p) implies p == last.0
            || r.dom().contains(p) by {
            let i = choose|i: int| 0 <= i < s.len() && (#[trigger] s[i]).0 == p;
            if i < t.len() {
                assert(t[i].0 == p);
            }
        }
        assert(m1.union_prefer_right(r).insert(last.0, last.1) =~= m1.union_prefer_right(m2));
    }
}

/// A pair with a path that a listing does not hold yet may stand anywhere
/// in it.
pub proof fn lemma_lists_insert(
    s: Seq<Pair>,
    m: Map<Seq<char>, Seq<char>>,
    i: int,
    path: Seq<char>,
    hash: Seq<char>,
)
    requires
        lists(s, m),
        !m.dom().contains(path),
        0 <= i <= s.len(),
    ensures
        lists(s.insert(i, (path, hash)), m.insert(path, hash)),
{
    let t = s.insert(i, (path, hash));
    let m2 = m.insert(path, hash);
    assert forall|k: int| 0 <= k < t.len() implies m2.contains_pair((#[trigger] t[k]).0, t[k].1) by {
        if k < i {
            assert(t[k] == s[k]);
            assert(m.contains_pair(s[k].0, s[k].1));
        } else if k > i {
            assert(t[k] == s[k - 1]);
            assert(m.contains_pair(s[k - 1].0, s[k - 1].1));
        }
    }
    assert forall|p: Seq<char>| #[trigger] m2.dom().contains(p) implies exists|k: int|
        0 <= k < t.len() && (#[trigger] t[k]).0 == p by {
        if p == path {
            assert(t[i].0 == p);
        } else {
            assert(m.dom().contains(p));
            let j = choose|j: int| 0 <= j < s.len() && (#[trigger] s[j]).0 == p;
            if j < i {
                assert(t[j].0 == p);
            } else {
                assert(t[j + 1] == s[j]);
                assert(t[j + 1].0 == p);
            }
        }
    }
}

/// The place of a new path in a listing by path.
pub proof fn lemma_path_place(s: Seq<Pair>, path: Seq<char>) -> (i: int)
    requires
        sorted_by_path(s),
        forall|k: int| 0 <= k < s.len() ==> (#[trigger] s[k]).0 != path,
    ensures
        0 <= i <= s.len(),
        forall|j: int| 0 <= j < i ==> str_lt((#[trigger] s[j]).0, path),
        i < s.len() ==> str_lt(path, s[i].0),
    decreases s.len(),
{
    if s.len() == 0 {
        0
    } else {
        let last = s.last();
        lemma_str_lt_total(last.0, path);
        if str_lt(last.0, path) {
            assert forall|j: int| 0 <= j < s.len() implies str_lt((#[trigger] s[j]).0, path) by {
                if j < s.len() - 1 {
                    assert(path_lt(s[j], s[s.len() - 1]));
                    lemma_str_lt_transitive(s[j].0, last.0, path);
                }
            }
            s.len() as int
        } else {
            let t = s.drop_last();
            assert forall|a: int, b: int| 0 <= a < b < t.len() implies path_lt(
                #[trigger] t[a],
                #[trigger] t[b],
            ) by {
                assert(path_lt(s[a], s[b]));
            }
            assert forall|k: int| 0 <= k < t.len() implies (#[trigger] t[k]).0 != path by {
                assert(t[k] == s[k]);
            }
            let i = lemma_path_place(t, path);
            assert forall|j: int| 0 <= j < i implies str_lt((#[trigger] s[j]).0, path) by {
                assert(s[j] == t[j]);
            }
            if i < t.len() {
                assert(s[i] == t[i]);
            }
            i
        }
    }
}

/// The place of a pair in a listing by digest.
pub proof fn lemma_digest_place(s: Seq<Pair>, e: Pair) -> (i: int)
    requires
        sorted_by_digest(s),
    ensures
        0 <= i <= s.len(),
        forall|k: int| 0 <= k < i ==> digest_lt(#[trigger] s[k], e),
        i < s.len() ==> !digest_lt(s[i], e),
    decreases s.len(),
{
    if s.len() == 0 {
        0
    } else {
        let last = s.last();
        if digest_lt(last, e) {
            assert forall|k: int| 0 <= k < s.len() implies digest_lt(#[trigger] s[k], e) by {
                if k < s.len() - 1 {
                    assert(digest_lt(s[k], s[s.len() - 1]));
                    lemma_digest_lt_transitive(s[k], last, e);
                }
            }
            s.len() as int
        } else {
            let t = s.drop_last();
            assert forall|a: int, b: int| 0 <= a < b < t.len() implies digest_lt(
                #[trigger] t[a],
                #[trigger] t[b],
            ) by {
                assert(digest_lt(s[a], s[b]));
            }
            let i = lemma_digest_place(t, e);
            assert forall|k: int| 0 <= k < i implies digest_lt(#[trigger] s[k], e) by {
                assert(s[k] == t[k]);
            }
            if i < t.len() {
                assert(s[i] == t[i]);
            }
            i
        }
    }
}

/// A map that a sequence lists holds finitely many paths.
pub proof fn lemma_lists_finite(s: Seq<Pair>, m: Map<Seq<char>, Seq<char>>)
    requires
        lists(s, m),
    ensures
        m.dom().finite(),
{
    let paths = s.map_values(|e: Pair| e.0);
    vstd::seq_lib::seq_to_set_is_finite(paths);
    assert forall|p: Seq<char>| m.dom().contains(p) implies paths.to_set().contains(p) by {
        let i = choose|i: int| 0 <= i < s.len() && (#[trigger] s[i]).0 == p;
        assert(paths[i] == p);
    }
    assert forall|p: Seq<char>| paths.to_set().contains(p) implies m.dom().contains(p) by {
        let i = choose|i: int| 0 <= i < paths.len() && paths[i] == p;
        assert(m.contains_pair(s[i].0, s[i].1));
    }
    assert(m.dom() =~= paths.to_set());
}

/// Every map of finitely many paths has its listing by path and its listing
/// by digest.
pub proof fn lemma_orders(m: Map<Seq<char>, Seq<char>>)
    requires
        m.dom().finite(),
    ensures
        sorted_by_path(path_order(m)),
        lists(path_order(m), m),
        sorted_by_digest(digest_order(m)),
        lists(digest_order(m), m),
    decreases m.dom().len(),
{
    if m.dom().len() == 0 {
        m.dom().lemma_len0_is_empty();
        let none = Seq::<Pair>::empty();
        assert(sorted_by_path(none) && lists(none, m));
        assert(sorted_by_digest(none) && lists(none, m));
    } else {
        let p = m.dom().choose();
        let h = m[p];
        let r = m.remove(p);
        lemma_orders(r);
        assert(r.insert(p, h) =~= m);
        let s1 = path_order(r);
        assert forall|k: int| 0 <= k < s1.len() implies (#[trigger] s1[k]).0 != p by {
            assert(r.contains_pair(s1[k].0, s1[k].1));
        }
        let i = lemma_path_place(s1, p);
        lemma_insert_at(s1, r, i, p, h);
        let w1 = s1.insert(i, (p, h));
        assert(sorted_by_path(w1) && lists(w1, m));
        let s2 = digest_order(r);
        if s2.contains((p, h)) {
            let k = choose|k: int| 0 <= k < s2.len() && s2[k] == (p, h);
            assert(r.contains_pair(s2[k].0, s2[k].1));
        }
        let j = lemma_digest_place(s2, (p, h));
        lemma_digest_insert_at(s2, j, (p, h));
        lemma_lists_insert(s2, r, j, p, h);
        let w2 = s2.insert(j, (p, h));
        assert(sorted_by_digest(w2) && lists(w2, m));
    }
}

/// A mapping from paths to digests: at most one digest for a path. It keeps
/// its entries in ascending order of the paths.
#[derive(Debug)]
pub struct FileMap {
    entries: Vec<Entry>,
}

impl View for FileMap {
    type V = Map<Seq<char>, Seq<char>>;

    closed spec fn view(&self) -> Map<Seq<char>, Seq<char>> {
        map_of(pairs_of(self.entries@))
    }
}

/// Where `path` stands, or would stand, among entries in ascending order of
/// their paths, and whether it stands there.
fn locate(entries: &Vec<Entry>, path: &str) -> (r: (usize, bool))
    requires
        sorted_by_path(pairs_of(entries@)),
    ensures
        r.0 <= entries.len(),
        forall|j: int| 0 <= j < r.0 ==> str_lt((#[trigger] pairs_of(entries@)[j]).0, path@),
        r.1 ==> r.0 < entries.len() && pairs_of(entries@)[r.0 as int].0 == path@,
        !r.1 && r.0 < entries.len() ==> str_lt(path@, pairs_of(entries@)[r.0 as int].0),
{
    let ghost s = pairs_of(entries@);
    let mut lo: usize = 0;
    let mut hi: usize = entries.len();
    while lo < hi
        invariant
            lo <= hi <= entries.len(),
            s == pairs_of(entries@),
            sorted_by_path(s),
            forall|j: int| 0 <= j < lo ==> str_lt((#[trigger] s[j]).0, path@),
            forall|j: int| hi <= j < s.len() ==> str_lt(path@, (#[trigger] s[j]).0),
        decreases hi - lo,
    {
        let mid = lo + (hi - lo) / 2;
        match str_order(entries[mid].path.as_str(), path) {
            Order::Less => {
                proof {
                    assert forall|j: int| 0 <= j < mid + 1 implies str_lt(
                        (#[trigger] s[j]).0,
                        path@,
                    ) by {
                        if j < mid {
                            assert(path_lt(s[j], s[mid as int]));
                            lemma_str_lt_transitive(s[j].0, s[mid as int].0, path@);
                        }
                    }
                }
                lo = mid + 1;
            },
            Order::Equal => {
                proof {
                    assert forall|j: int| 0 <= j < mid implies str_lt(
                        (#[trigger] s[j]).0,
                        path@,
                    ) by {
                        assert(path_lt(s[j], s[mid as int]));
                    }
                }
                return (mid, true);
            },
            Order::Greater => {
                proof {
                    assert forall|j: int| mid <= j < s.len() implies str_lt(
                        path@,
                        (#[trigger] s[j]).0,
                    ) by {
                        if j > mid {
                            assert(path_lt(s[mid as int], s[j]));
                            lemma_str_lt_transitive(path@, s[mid as int].0, s[j].0);
                        }
                    }
                }
                hi = mid;
            },
        }
    }
    (lo, false)
}

/// Where `e` would stand among entries in the order of a commit object: the
/// entries before that place stand before `e`, and the entry at that place
/// does not.
fn locate_by_digest(entries: &Vec<Entry>, e: &Entry) -> (pos: usize)
    requires
        sorted_by_digest(pairs_of(entries@)),
    ensures
        pos <= entries.len(),
        forall|k: int| 0 <= k < pos ==> digest_lt(#[trigger] pairs_of(entries@)[k], e@),
        pos < entries.len() ==> !digest_lt(pairs_of(entries@)[pos as int], e@),
{
    let ghost s = pairs_of(entries@);
    let mut lo: usize = 0;
    let mut hi: usize = entries.len();
    while lo < hi
        invariant
            lo <= hi <= entries.len(),
            s == pairs_of(entries@),
            sorted_by_digest(s),
            forall|k: int| 0 <= k < lo ==> digest_lt(#[trigger] s[k], e@),
            forall|k: int| hi <= k < s.len() ==> !digest_lt(#[trigger] s[k], e@),
        decreases hi - lo,
    {
        let mid = lo + (hi - lo) / 2;
        if digest_before(&entries[mid], e) {
            proof {
                assert forall|k: int| 0 <= k < mid + 1 implies digest_lt(#[trigger] s[k], e@) by {
                    if k < mid {
                        assert(digest_lt(s[k], s[mid as int]));
                        lemma_digest_lt_transitive(s[k], s[mid as int], e@);
                    }
                }
            }
            lo = mid + 1;
        } else {
            proof {
                assert forall|k: int| mid <= k < s.len() implies !digest_lt(#[trigger] s[k], e@) by {
                    if k > mid && digest_lt(s[k], e@) {
                        assert(digest_lt(s[mid as int], s[k]));
                        lemma_digest_lt_transitive(s[mid as int], s[k], e@);
                    }
                }
            }
            hi = mid;
        }
    }
    lo
}

/// True if `a` stands before `b` in the order of a commit object.
fn digest_before(a: &Entry, b: &Entry) -> (r: bool)
    ensures
        r == digest_lt(a@, b@),
{
    proof {
        lemma_str_lt_irreflexive(a.hash@);
        if str_lt(b.hash@, a.hash@) {
            lemma_str_lt_asymmetric(b.hash@, a.hash@);
        }
    }
    match str_order(a.hash.as_str(), b.hash.as_str()) {
        Order::Less => true,
        Order::Greater => false,
        Order::Equal => match str_order(a.path.as_str(), b.path.as_str()) {
            Order::Less => true,
            _ => false,
        },
    }
}

impl FileMap {
    /// The entries stand in strictly ascending order of their paths.
    #[verifier::type_invariant]
    spec fn ordered(self) -> bool {
        sorted_by_path(pairs_of(self.entries@))
    }

    /// The entries list the map, and are its listing by path.
    proof fn lemma_listed(self)
        requires
            self.ordered(),
        ensures
            lists(pairs_of(self.entries@), self@),
            path_order(self@) == pairs_of(self.entries@),
            self@.dom().finite(),
    {
        let s = pairs_of(self.entries@);
        lemma_sorted_by_path_distinct(s);
        lemma_lists_map_of(s);
        lemma_path_order_is(s, self@);
        lemma_lists_finite(s, self@);
    }

    /// The empty mapping.
    pub fn new() -> (m: FileMap)
        ensures
            m@ == Map::<Seq<char>, Seq<char>>::empty(),
            m@.dom().finite(),
    {
        let m = FileMap { entries: Vec::new() };
        assert(m@ =~= Map::<Seq<char>, Seq<char>>::empty());
        m
    }

    /// Records `hash` for `path`, in place of what was recorded for it.
    pub fn insert(&mut self, path: &str, hash: &str)
        ensures
            final(self)@ == old(self)@.insert(path@, hash@),
            final(self)@.dom().finite(),
    {
        proof {
            use_type_invariant(&*self);
            self.lemma_listed();
        }
        let ghost before = pairs_of(self.entries@);
        let ghost m = self@;
        let mut entries: Vec<Entry> = Vec::new();
        std::mem::swap(&mut entries, &mut self.entries);
        let (i, found) = locate(&entries, path);
        let entry = Entry { path: String::from_str(path), hash: String::from_str(hash) };
        if found {
            entries.set(i, entry);
            proof {
                lemma_replace_at(before, m, i as int, hash@);
                assert(pairs_of(entries@) =~= before.update(i as int, (path@, hash@)));
            }
        } else {
            entries.insert(i, entry);
            proof {
                lemma_insert_at(before, m, i as int, path@, hash@);
                assert(pairs_of(entries@) =~= before.insert(i as int, (path@, hash@)));
            }
        }
        self.entries = entries;
        proof {
            self.lemma_listed();
            lemma_lists_same_map(pairs_of(self.entries@), self@, m.insert(path@, hash@));
        }
    }

    /// The digest recorded for `path`.
    pub fn get(&self, path: &str) -> (r: Option<&String>)
        ensures
            match r {
                Some(hash) => self@.contains_pair(path@, hash@),
                None => !self@.dom().contains(path@),
            },
            self@.dom().finite(),
    {
        proof {
            use_type_invariant(self);
            self.lemma_listed();
        }
        let ghost s = pairs_of(self.entries@);
        let (i, found) = locate(&self.entries, path);
        if found {
            assert(self@.contains_pair(s[i as int].0, s[i as int].1));
            Some(&self.entries[i].hash)
        } else {
            proof {
                if self@.dom().contains(path@) {
                    let j = choose|j: int| 0 <= j < s.len() && (#[trigger] s[j]).0 == path@;
                    lemma_str_lt_irreflexive(path@);
                    if j > i {
                        assert(path_lt(s[i as int], s[j]));
                        lemma_str_lt_transitive(path@, s[i as int].0, s[j].0);
                    }
                }
            }
            None
        }
    }

    /// The number of paths.
    pub fn len(&self) -> (n: usize)
        ensures
            n == path_order(self@).len(),
            self@.dom().finite(),
    {
        proof {
            use_type_invariant(self);
            self.lemma_listed();
        }
        self.entries.len()
    }

    /// The entries in ascending order of their paths.
    pub fn entries(&self) -> (out: Vec<Entry>)
        ensures
            pairs_of(out@) == path_order(self@),
            self@.dom().finite(),
    {
        proof {
            use_type_invariant(self);
            self.lemma_listed();
        }
        copy_entries(&self.entries)
    }

    /// Records every pair of `other`, in place of what was recorded for its
    /// path.
    pub fn extend(&mut self, other: &FileMap)
        ensures
            final(self)@ == old(self)@.union_prefer_right(other@),
            final(self)@.dom().finite(),
    {
        proof {
            use_type_invariant(&*self);
            self.lemma_listed();
            use_type_invariant(other);
            other.lemma_listed();
        }
        let ghost start = self@;
        let ghost o = pairs_of(other.entries@);
        let n = other.entries.len();
        let mut i: usize = 0;
        while i < n
            invariant
                n == other.entries.len(),
                i <= n,
                o == pairs_of(other.entries@),
                self@ == overlay(start, o.take(i as int)),
                self@.dom().finite(),
            decreases n - i,
        {
            let e = &other.entries[i];
            self.insert(e.path.as_str(), e.hash.as_str());
            proof {
                assert(o.take(i + 1).drop_last() =~= o.take(i as int));
                assert(o.take(i + 1).last() == o[i as int]);
            }
            i += 1;
        }
        proof {
            assert(o.take(n as int) =~= o);
            lemma_overlay_is_union(start, o, other@);
        }
    }

    /// The entries in ascending order of their digests, those of one digest
    /// in ascending order of their paths.
    pub fn entries_by_digest(&self) -> (out: Vec<Entry>)
        ensures
            pairs_of(out@) == digest_order(self@),
            self@.dom().finite(),
    {
        proof {
            use_type_invariant(self);
            self.lemma_listed();
        }
        let ghost s = pairs_of(self.entries@);
        proof {
            lemma_sorted_by_path_distinct(s);
        }
        let n = self.entries.len();
        let mut out: Vec<Entry> = Vec::new();
        let mut i: usize = 0;
        while i < n
            invariant
                n == self.entries.len(),
                i <= n,
                s == pairs_of(self.entries@),
                distinct_paths(s),
                sorted_by_digest(pairs_of(out@)),
                forall|k: int|
                    0 <= k < out.len() ==> s.take(i as int).contains(#[trigger] pairs_of(out@)[k]),
                forall|j: int| 0 <= j < i ==> pairs_of(out@).contains(#[trigger] s[j]),
            decreases n - i,
        {
            let e = &self.entries[i];
            let copy = Entry { path: e.path.clone(), hash: e.hash.clone() };
            let ghost before = pairs_of(out@);
            let pos = locate_by_digest(&out, &copy);
            out.insert(pos, copy);
            proof {
                let after = pairs_of(out@);
                assert(copy@ == s[i as int]);
                assert(after =~= before.insert(pos as int, copy@));
                if before.contains(copy@) {
                    let k = choose|k: int| 0 <= k < before.len() && before[k] == copy@;
                    assert(s.take(i as int).contains(before[k]));
                    let j = choose|j: int| 0 <= j < i && s.take(i as int)[j] == before[k];
                    assert(s[j].0 == s[i as int].0);
                }
                lemma_digest_insert_at(before, pos as int, copy@);
                assert forall|k: int| 0 <= k < after.len() implies s.take(i + 1).contains(
                    #[trigger] after[k],
                ) by {
                    if k == pos {
                        assert(s.take(i + 1)[i as int] == after[k]);
                    } else {
                        let b = if k < pos {
                            k
                        } else {
                            k - 1
                        };
                        assert(after[k] == before[b]);
                        assert(s.take(i as int).contains(before[b]));
                        let j = choose|j: int| 0 <= j < i && s.take(i as int)[j] == before[b];
                        assert(s.take(i + 1)[j] == after[k]);
                    }
                }
                assert forall|j: int| 0 <= j < i + 1 implies after.contains(#[trigger] s[j]) by {
                    if j == i {
                        assert(after[pos as int] == s[j]);
                    } else {
                        assert(before.contains(s[j]));
                        let k = choose|k: int| 0 <= k < before.len() && before[k] == s[j];
                        if k < pos {
                            assert(after[k] == s[j]);
                        } else {
                            assert(after[k + 1] == s[j]);
                        }
                    }
                }
            }
            i += 1;
        }
        proof {
            let o = pairs_of(out@);
            assert(s.take(n as int) =~= s);
            assert forall|k: int| 0 <= k < o.len() implies self@.contains_pair(
                (#[trigger] o[k]).0,
                o[k].1,
            ) by {
                assert(s.contains(o[k]));
                let j = choose|j: int| 0 <= j < s.len() && s[j] == o[k];
                assert(self@.contains_pair(s[j].0, s[j].1));
            }
            assert forall|p: Seq<char>| #[trigger] self@.dom().contains(p) implies exists|k: int|
                0 <= k < o.len() && (#[trigger] o[k]).0 == p by {
                let j = choose|j: int| 0 <= j < s.len() && (#[trigger] s[j]).0 == p;
                assert(o.contains(s[j]));
                let k = choose|k: int| 0 <= k < o.len() && o[k] == s[j];
                assert(o[k].0 == p);
            }
            lemma_digest_order_is(o, self@);
        }
        out
    }
}

/// A copy of the given entries, in their order.
fn copy_entries(entries: &Vec<Entry>) -> (out: Vec<Entry>)
    ensures
        pairs_of(out@) == pairs_of(entries@),
{
    let n = entries.len();
    let mut out: Vec<Entry> = Vec::new();
    let mut i: usize = 0;
    while i < n
        invariant
            n == entries.len(),
            i <= n,
            pairs_of(out@) == pairs_of(entries@).take(i as int),
        decreases n - i,
    {
        let e = &entries[i];
        let copy = Entry { path: e.path.clone(), hash: e.hash.clone() };
        assert(copy@ == pairs_of(entries@)[i as int]);
        let ghost prev = pairs_of(out@);
        out.push(copy);
        assert(pairs_of(out@) =~= prev.push(copy@));
        assert(pairs_of(out@) =~= pairs_of(entries@).take(i + 1));
        i += 1;
    }
    assert(pairs_of(out@) =~= pairs_of(entries@));
    out
}

impl Clone for FileMap {
    /// A copy that holds the same mapping.
    fn clone(&self) -> (copy: FileMap)
        ensures
            copy@ == self@,
            copy@.dom().finite(),
    {
        proof {
            use_type_invariant(self);
            self.lemma_listed();
        }
        FileMap { entries: copy_entries(&self.entries) }
    }
}

} // verus!
