use regex::Regex;
use tgit::commit::{commit, Commit};
use tgit::digest::digest;
use tgit::index::Index;

const PARENT: &str = "9397a762d614f32a6720887d678ea2f9f478bc30";
const D1: &str = "1edf3cb6c56fb58fb214d9b150e37bf68725f167";
const D2: &str = "faac27718188671d85f5dbd040ea4b5077cb4635";

fn files(c: &Commit) -> Vec<(String, String)> {
    c.files.entries().into_iter().map(|e| (e.path, e.hash)).collect()
}

fn pair(path: &str, hash: &str) -> (String, String) {
    (path.to_string(), hash.to_string())
}

fn index_of(entries: &[(&str, &str)]) -> Index {
    let mut index = Index::new("/repo", None).unwrap();
    for (path, hash) in entries {
        index.update(path, hash);
    }
    index
}

#[test]
fn first_commit_has_no_parent_and_tracks_nothing() {
    let c = Commit::new(None);
    assert_eq!(c.hash, None);
    assert_eq!(c.data, None);
    assert_eq!(c.parent, None);
    assert_eq!(c.files.len(), 0);
}

#[test]
fn new_commit_names_its_parent_and_tracks_what_it_tracks() {
    let text = format!("parent {}\nblob {} x\nblob {} y\n", PARENT, D1, D2);
    let parent = Commit::from_string(D1, &text).unwrap();
    let c = Commit::new(Some(&parent));
    assert_eq!(c.hash, None);
    assert_eq!(c.data, None);
    assert_eq!(c.parent, Some(D1.to_string()));
    assert_eq!(files(&c), vec![pair("x", D1), pair("y", D2)]);
}

#[test]
fn new_commit_on_a_parent_without_digest_names_no_parent() {
    let mut parent = Commit::new(None);
    parent.add_from_index(&index_of(&[("b.txt", "h3")]));
    let c = Commit::new(Some(&parent));
    assert_eq!(c.parent, None);
    assert_eq!(files(&c), vec![pair("b.txt", "h3")]);
}

#[test]
fn commit_chain_monotonicity() {
    let mut parent = Commit::new(None);
    parent.add_from_index(&index_of(&[("b.txt", "h3")]));
    let child = commit(Some(&parent), &index_of(&[("a.txt", "h1")]));
    assert_eq!(files(&child), vec![pair("a.txt", "h1"), pair("b.txt", "h3")]);
    assert_eq!(child.hash, None);
    assert_eq!(child.data, None);
}

#[test]
fn staged_digest_replaces_the_tracked_one() {
    let mut parent = Commit::new(None);
    parent.add_from_index(&index_of(&[("a.txt", "old"), ("b.txt", "h3")]));
    parent.update();
    let child = commit(Some(&parent), &index_of(&[("a.txt", "new"), ("c.txt", "h4")]));
    assert_eq!(files(&child), vec![pair("a.txt", "new"), pair("b.txt", "h3"), pair("c.txt", "h4")]);
    assert_eq!(child.parent, parent.hash);
}

#[test]
fn add_from_index_keeps_the_other_fields() {
    let mut c = Commit::from_string(D1, &format!("parent {}\n", PARENT)).unwrap();
    c.add_from_index(&index_of(&[("a", D2)]));
    assert_eq!(c.hash, Some(D1.to_string()));
    assert_eq!(c.parent, Some(PARENT.to_string()));
    assert_eq!(c.data, None);
    assert_eq!(files(&c), vec![pair("a", D2)]);
}

#[test]
fn commit_text_is_ordered_by_digest() {
    let mut c = Commit::from_string(D1, &format!("parent {}\n", PARENT)).unwrap();
    c.add_from_index(&index_of(&[("a", D2), ("b", D1), ("c", D2), ("0", D2)]));
    let expected = format!("parent {PARENT}\nblob {D1} b\nblob {D2} 0\nblob {D2} a\nblob {D2} c\n");
    assert_eq!(c.render(), expected);
}

#[test]
fn commit_text_without_parent_has_no_parent_line() {
    let mut c = Commit::new(None);
    assert_eq!(c.render(), "");
    c.add_from_index(&index_of(&[("README", D1)]));
    assert_eq!(c.render(), format!("blob {} README\n", D1));
}

#[test]
fn update_fixes_the_stored_form_and_its_digest() {
    let mut c = Commit::from_string("ignored", &format!("parent {}\n", PARENT)).unwrap();
    c.add_from_index(&index_of(&[("x", D1), ("y", D2)]));
    assert!(c.can_update());
    c.update();
    let expected = format!("parent {}\nblob {} x\nblob {} y\n", PARENT, D1, D2);
    assert_eq!(c.data, Some(expected.clone().into_bytes()));
    assert_eq!(c.hash, Some(digest(expected.as_bytes())));
    assert_eq!(c.parent, Some(PARENT.to_string()));
    assert_eq!(files(&c), vec![pair("x", D1), pair("y", D2)]);
}

#[test]
fn update_is_deterministic() {
    let mut a = Commit::new(None);
    a.add_from_index(&index_of(&[("x", D1), ("y", D2)]));
    let mut b = Commit::new(None);
    b.add_from_index(&index_of(&[("y", D2)]));
    b.add_from_index(&index_of(&[("x", D1)]));
    a.update();
    b.update();
    assert_eq!(a.data, b.data);
    assert_eq!(a.hash, b.hash);
    let first = a.hash.clone();
    a.update();
    assert_eq!(a.hash, first);
}

#[test]
fn serialize_parse_round_trip() {
    let mut c = Commit::from_string("", &format!("parent {}\n", PARENT)).unwrap();
    c.add_from_index(&index_of(&[("x", D1), ("y", D2)]));
    c.update();
    let hash = c.hash.clone().unwrap();
    let text = String::from_utf8(c.data.clone().unwrap()).unwrap();
    let back = Commit::from_string(&hash, &text).unwrap();
    assert_eq!(back.hash, Some(hash));
    assert_eq!(back.parent, Some(PARENT.to_string()));
    assert_eq!(files(&back), vec![pair("x", D1), pair("y", D2)]);
    assert_eq!(files(&back), files(&c));
    assert_eq!(back.data, None);
}

#[test]
fn round_trip_keeps_paths_with_spaces_and_equal_digests() {
    let mut c = Commit::new(None);
    c.add_from_index(&index_of(&[("a b c", D1), ("copy of a", D1), ("parent ", D2), ("", D2)]));
    c.update();
    let text = String::from_utf8(c.data.clone().unwrap()).unwrap();
    let back = Commit::from_string(c.hash.as_ref().unwrap(), &text).unwrap();
    assert_eq!(back.parent, None);
    assert_eq!(files(&back), files(&c));
    assert_eq!(back.files.len(), 4);
}

#[test]
fn from_string_takes_the_given_digest_on_trust() {
    let c = Commit::from_string("not even a digest", "").unwrap();
    assert_eq!(c.hash, Some("not even a digest".to_string()));
    assert_eq!(c.parent, None);
    assert_eq!(c.files.len(), 0);
}

#[test]
fn from_string_passes_over_lines_of_no_known_form() {
    let text = format!("tree {D1}\n\nblob {D1}\nblob short x\nparent {D2}\nblob {D1} kept\nauthor me\n");
    let c = Commit::from_string(D1, &text).unwrap();
    assert_eq!(c.parent, Some(D2.to_string()));
    assert_eq!(files(&c), vec![pair("kept", D1)]);
}

#[test]
fn from_string_lets_the_last_parent_line_decide() {
    let text = format!("parent {D1}\nblob {D1} x\nparent {D2}\n");
    let c = Commit::from_string(D1, &text).unwrap();
    assert_eq!(c.parent, Some(D2.to_string()));
}

#[test]
fn from_string_lets_the_last_line_of_a_path_decide() {
    let text = format!("blob {D1} x\nblob {D2} x\n");
    let c = Commit::from_string(D1, &text).unwrap();
    assert_eq!(files(&c), vec![pair("x", D2)]);
}

#[test]
fn from_string_wants_lowercase_digests_of_full_length() {
    let upper = D1.to_uppercase();
    let text = format!("parent {upper}\nblob {upper} x\nparent {}\nblob {} y\n", &D1[..39], &D1[..39]);
    let c = Commit::from_string(D1, &text).unwrap();
    assert_eq!(c.parent, None);
    assert_eq!(c.files.len(), 0);
}

#[test]
fn from_string_reads_keywords_at_the_start_of_a_line() {
    let text = format!(" parent {D1}\nxblob {D1} a\nblob {D2} parent {D1}\n");
    let c = Commit::from_string(D1, &text).unwrap();
    assert_eq!(c.parent, None);
    assert_eq!(files(&c), vec![pair(&format!("parent {D1}"), D2)]);
}

#[test]
fn from_string_ignores_what_follows_the_digest_of_a_parent() {
    let text = format!("parent {D1}0123 and more\n");
    let c = Commit::from_string(D1, &text).unwrap();
    assert_eq!(c.parent, Some(D1.to_string()));
}

#[test]
fn from_string_reads_both_kinds_of_line_ending() {
    let text = format!("parent {PARENT}\r\nblob {D1} x\r\nblob {D2} y");
    let c = Commit::from_string(D1, &text).unwrap();
    assert_eq!(c.parent, Some(PARENT.to_string()));
    assert_eq!(files(&c), vec![pair("x", D1), pair("y", D2)]);
}

#[test]
fn from_string_agrees_with_the_patterns_of_the_format() {
    let parent = Regex::new(r"^parent ([0-9a-f]{40})").unwrap();
    let blob = Regex::new(r"^blob ([0-9a-f]{40}) (.*)").unwrap();
    let lines = vec![
        format!("parent {D1}"),
        format!("parent {D1}tail"),
        format!("parent {}", &D1[..39]),
        format!("parent  {D1}"),
        format!("Parent {D1}"),
        format!("parent {}g{}", &D1[..20], &D1[21..]),
        format!("blob {D1} path"),
        format!("blob {D1} "),
        format!("blob {D1}"),
        format!("blob {D1}  two"),
        format!("blob {D1}\tx"),
        format!("blob {D1} a b\tc\rd"),
        format!("blob {D1} \u{e9}\u{20ac}"),
        format!("blob {} x", D1.to_uppercase()),
        format!("blobs {D1} x"),
        String::from(""),
        String::from("parent"),
        String::from("blob"),
        format!("x parent {D1}"),
    ];
    for line in &lines {
        let c = Commit::from_string(D1, line).unwrap();
        let want_parent = parent.captures(line).map(|m| m.get(1).unwrap().as_str().to_string());
        let want_files: Vec<(String, String)> = blob
            .captures(line)
            .map(|m| pair(m.get(2).unwrap().as_str(), m.get(1).unwrap().as_str()))
            .into_iter()
            .collect();
        assert_eq!(c.parent, want_parent, "{:?}", line);
        assert_eq!(files(&c), want_files, "{:?}", line);
    }
}

#[test]
fn commit_text_agrees_with_a_sort_on_many_entries() {
    let mut index = Index::new("/repo", None).unwrap();
    let mut expected: Vec<(String, String)> = Vec::new();
    for i in 0..600u32 {
        let path = format!("src/{}/m{}.rs", i % 13, i);
        let hash = digest(format!("{}", i % 97).as_bytes());
        index.update(&path, &hash);
        expected.push((hash, path));
    }
    expected.sort();
    let mut c = Commit::new(None);
    c.add_from_index(&index);
    let mut text = String::new();
    for (hash, path) in &expected {
        text.push_str(&format!("blob {} {}\n", hash, path));
    }
    assert_eq!(c.render(), text);
    c.update();
    assert_eq!(c.hash, Some(digest(text.as_bytes())));
    let back = Commit::from_string(c.hash.as_ref().unwrap(), &text).unwrap();
    assert_eq!(files(&back), files(&c));
    assert_eq!(back.files.len(), 600);
}

#[test]
fn from_string_agrees_with_the_patterns_on_whole_texts() {
    let parent = Regex::new(r"^parent ([0-9a-f]{40})").unwrap();
    let blob = Regex::new(r"^blob ([0-9a-f]{40}) (.*)").unwrap();
    let texts = vec![
        String::new(),
        String::from("\n\n"),
        format!("parent {PARENT}\nblob {D1} a\nblob {D2} b\n"),
        format!("parent {PARENT}\r\nblob {D1} a\r\nblob {D2} b\r\n"),
        format!("blob {D1} a\nblob {D2} a\nparent {D1}\nparent {D2}"),
        format!("blob {D1} a\rblob {D2} b\n"),
        format!("blob {D1} a\r\r\nparent {D2}\r"),
        format!("junk\nblob {D1} sp ace\n\nparent {D1}x\nblob {D2} \u{3b1}\u{3b2}\n"),
    ];
    for text in &texts {
        let mut want_parent = None;
        let mut want_files = std::collections::BTreeMap::new();
        for line in text.lines() {
            if let Some(m) = parent.captures(line) {
                want_parent = Some(m.get(1).unwrap().as_str().to_string());
            }
            if let Some(m) = blob.captures(line) {
                want_files.insert(m.get(2).unwrap().as_str().to_string(), m.get(1).unwrap().as_str().to_string());
            }
        }
        let c = Commit::from_string(D1, text).unwrap();
        assert_eq!(c.parent, want_parent, "{:?}", text);
        assert_eq!(files(&c), want_files.into_iter().collect::<Vec<_>>(), "{:?}", text);
    }
}
