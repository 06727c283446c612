use tgit::error::TgitError;
use tgit::index::Index;

fn pairs(index: &Index) -> Vec<(String, String)> {
    index.hashtree.entries().into_iter().map(|e| (e.path, e.hash)).collect()
}

fn pair(path: &str, hash: &str) -> (String, String) {
    (path.to_string(), hash.to_string())
}

#[test]
fn index_starts_empty_without_a_file() {
    let index = Index::new("/repo", None).unwrap();
    assert_eq!(index.path, "/repo/.tgit/index");
    assert_eq!(index.hashtree.len(), 0);
    assert!(pairs(&index).is_empty());
}

#[test]
fn index_of_an_empty_file_is_empty() {
    let index = Index::new("/repo", Some("")).unwrap();
    assert_eq!(index.hashtree.len(), 0);
}

#[test]
fn index_round_trip() {
    let mut index = Index::new("/repo", None).unwrap();
    index.update("a.txt", "h1");
    index.update("b.txt", "h2");
    let content = index.write();
    assert_eq!(content, "a.txt h1\nb.txt h2\n");
    let again = Index::new("/repo", Some(&content)).unwrap();
    assert_eq!(pairs(&again), vec![pair("a.txt", "h1"), pair("b.txt", "h2")]);
    assert_eq!(again.write(), content);
}

#[test]
fn index_is_written_in_order_of_the_paths() {
    let mut index = Index::new("/repo", None).unwrap();
    index.update("src/main.rs", "d3");
    index.update("b.txt", "d2");
    index.update("a.txt", "d1");
    index.update("Z", "d0");
    index.update("a", "d4");
    assert_eq!(index.write(), "Z d0\na d4\na.txt d1\nb.txt d2\nsrc/main.rs d3\n");
}

#[test]
fn index_orders_paths_by_their_bytes() {
    let mut index = Index::new("/repo", None).unwrap();
    index.update("\u{e9}", "2");
    index.update("z", "1");
    index.update("\u{1f600}", "4");
    index.update("\u{20ac}", "3");
    let mut expected = vec!["\u{e9}", "z", "\u{1f600}", "\u{20ac}"];
    expected.sort();
    let got: Vec<String> = pairs(&index).into_iter().map(|p| p.0).collect();
    assert_eq!(got, expected);
    assert_eq!(got, vec!["z", "\u{e9}", "\u{20ac}", "\u{1f600}"]);
}

#[test]
fn index_update_replaces_the_digest_of_a_path() {
    let mut index = Index::new("/repo", None).unwrap();
    index.update("a.txt", "h1");
    index.update("a.txt", "h2");
    assert_eq!(pairs(&index), vec![pair("a.txt", "h2")]);
    assert_eq!(index.hashtree.get("a.txt"), Some(&"h2".to_string()));
    assert_eq!(index.hashtree.get("b.txt"), None);
    assert_eq!(index.hashtree.len(), 1);
}

#[test]
fn index_update_leaves_the_path_of_the_file() {
    let mut index = Index::new("/repo", None).unwrap();
    index.update("a.txt", "h1");
    assert_eq!(index.path, "/repo/.tgit/index");
}

#[test]
fn index_clear() {
    let mut index = Index::new("/repo", Some("a.txt h1\nb.txt h2\n")).unwrap();
    assert_eq!(index.hashtree.len(), 2);
    let content = index.clear();
    assert_eq!(content, "");
    assert_eq!(index.hashtree.len(), 0);
    assert_eq!(index.path, "/repo/.tgit/index");
    let again = Index::new("/repo", Some(&content)).unwrap();
    assert_eq!(again.hashtree.len(), 0);
    assert_eq!(again.write(), "");
}

#[test]
fn index_refuses_a_line_without_digest() {
    let r = Index::new("/repo", Some("a.txt"));
    assert!(matches!(r, Err(TgitError::InvalidIndex)));
}

#[test]
fn index_refuses_a_file_with_one_malformed_line() {
    for text in ["a.txt h1\nb.txt\n", "a.txt\nb.txt h2\n", "a.txt h1\n\nb.txt h2\n", "a.txt h1\nb.txt h2 x\n"] {
        let r = Index::new("/repo", Some(text));
        assert!(matches!(r, Err(TgitError::InvalidIndex)), "{:?}", text);
    }
}

#[test]
fn index_line_holds_exactly_two_tokens() {
    for text in ["a.txt\th1\n", "a.txt  h1\n", "  a.txt h1\n", "a.txt h1 \t \n", "a.txt\u{a0}h1\n", "a.txt\u{3000}\u{2003}h1"] {
        let index = Index::new("/r", Some(text)).unwrap();
        assert_eq!(pairs(&index), vec![pair("a.txt", "h1")], "{:?}", text);
    }
    for text in [" h1\n", "a.txt \n", " \n", "\t\n", "a\tb c\n", "a b c\n", "a\u{b}b\u{c}c\n"] {
        let r = Index::new("/r", Some(text));
        assert!(matches!(r, Err(TgitError::InvalidIndex)), "{:?}", text);
    }
}

#[test]
fn index_tokens_keep_characters_that_are_no_whitespace() {
    let index = Index::new("/r", Some("a\u{200b}b\u{feff} c\u{0}d\n")).unwrap();
    assert_eq!(pairs(&index), vec![pair("a\u{200b}b\u{feff}", "c\u{0}d")]);
    let index = Index::new("/r", Some("\u{e9}t\u{e9} \u{1f600}\n")).unwrap();
    assert_eq!(pairs(&index), vec![pair("\u{e9}t\u{e9}", "\u{1f600}")]);
}

#[test]
fn index_reads_lines_with_and_without_terminator() {
    let index = Index::new("/r", Some("a h1\r\nb h2")).unwrap();
    assert_eq!(pairs(&index), vec![pair("a", "h1"), pair("b", "h2")]);
    let index = Index::new("/r", Some("a h1\r")).unwrap();
    assert_eq!(pairs(&index), vec![pair("a", "h1")]);
    let index = Index::new("/r", Some("a\rh1\n")).unwrap();
    assert_eq!(pairs(&index), vec![pair("a", "h1")]);
}

#[test]
fn index_later_line_decides_for_a_path() {
    let index = Index::new("/r", Some("a h1\nb h2\na h3\n")).unwrap();
    assert_eq!(pairs(&index), vec![pair("a", "h3"), pair("b", "h2")]);
}

#[test]
fn index_reads_like_std_lines_and_split_whitespace() {
    let mut texts: Vec<String> = [
        "",
        "\n",
        "a b",
        "a b\n",
        "a b\nc d\n",
        "a b\r\nc d\r\n",
        "a b\n\n",
        "a b\rc d\n",
        "x  y\n",
        "x\ty\n",
        "one\n",
        " lead\n",
        " lead in\n",
        "trail \n",
        "trail end \n",
        "p q\nr s\nt\n",
        "p q\nr s\np t\n",
        "\u{e9}t\u{e9} d\u{e9}j\u{e0}\n",
        "a\u{85}b\n",
        "a\u{1680}b\u{2028}\n",
        "a\u{2029}b c\n",
        "a\u{202f}\u{205f}b\n",
        "a\u{200b}b\n",
        "a\u{180e}b\n",
        "a\u{1c}b\n",
    ]
    .iter()
    .map(|t| t.to_string())
    .collect();
    for code in 0u32..0x3100 {
        if let Some(c) = char::from_u32(code) {
            if c != '\n' {
                texts.push(format!("p{}d", c));
            }
        }
    }
    for text in &texts {
        let mut expected: Option<Vec<(String, String)>> = Some(Vec::new());
        for line in text.lines() {
            let parts: Vec<&str> = line.split_whitespace().collect();
            if parts.len() != 2 {
                expected = None;
                break;
            }
            if let Some(list) = expected.as_mut() {
                list.retain(|(p, _)| p != parts[0]);
                list.push(pair(parts[0], parts[1]));
            }
        }
        let got = Index::new("/r", Some(text));
        match expected {
            None => assert!(matches!(got, Err(TgitError::InvalidIndex)), "{:?}", text),
            Some(mut list) => {
                list.sort();
                assert_eq!(pairs(&got.unwrap()), list, "{:?}", text);
            }
        }
    }
}

#[test]
fn index_agrees_with_an_ordered_map_on_many_entries() {
    let mut index = Index::new("/r", None).unwrap();
    let mut expected = std::collections::BTreeMap::new();
    let mut seed: u64 = 0x2545f4914f6cdd1d;
    for round in 0..2000u32 {
        seed ^= seed << 13;
        seed ^= seed >> 7;
        seed ^= seed << 17;
        let path = format!("dir{}/file{}.txt", seed % 7, seed % 301);
        let hash = format!("{:016x}{}", seed, round);
        index.update(&path, &hash);
        expected.insert(path, hash);
    }
    assert_eq!(index.hashtree.len(), expected.len());
    let mut text = String::new();
    for (path, hash) in &expected {
        text.push_str(&format!("{} {}\n", path, hash));
        assert_eq!(index.hashtree.get(path), Some(hash));
    }
    assert_eq!(index.write(), text);
    let again = Index::new("/r", Some(&text)).unwrap();
    assert_eq!(again.write(), text);
}
