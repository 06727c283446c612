use std::collections::HashMap;
use tgit::add::add_file;
use tgit::commit::{commit, Commit};
use tgit::digest::digest;
use tgit::file::{FileService, ObjectWrite};
use tgit::index::Index;

/// The files of a repository, held in memory: path to contents.
struct Disk {
    files: HashMap<String, Vec<u8>>,
}

impl Disk {
    fn store(&mut self, w: ObjectWrite) {
        self.files.insert(w.file, w.data);
    }

    fn text(&self, path: &str) -> Option<String> {
        self.files.get(path).map(|b| String::from_utf8(b.clone()).unwrap())
    }
}

fn init(fs: &FileService, disk: &mut Disk) {
    disk.files.insert(fs.head_file(), b"ref: /refs/heads/master".to_vec());
}

fn stage(fs: &FileService, disk: &mut Disk, path: &str, contents: &[u8]) {
    let index_file = fs.index_file();
    let held = disk.text(&index_file);
    let mut index = Index::new(&fs.root_dir, held.as_deref()).unwrap();
    let w = add_file(fs, &mut index, path, contents.to_vec());
    disk.store(w);
    disk.files.insert(index_file, index.write().into_bytes());
}

fn head_commit(fs: &FileService, disk: &Disk) -> Option<Commit> {
    let head = disk.text(&fs.head_file()).unwrap();
    let tip = disk.text(&fs.get_head_ref(&head))?;
    let data = disk.files.get(&fs.read_object(&tip)).unwrap();
    Some(fs.read_commit(&tip, data).unwrap())
}

fn do_commit(fs: &FileService, disk: &mut Disk) -> Commit {
    let parent = head_commit(fs, disk);
    let index_file = fs.index_file();
    let held = disk.text(&index_file);
    let mut index = Index::new(&fs.root_dir, held.as_deref()).unwrap();
    assert_eq!(index.path, index_file);
    let mut c = commit(parent.as_ref(), &index);
    assert!(c.can_update());
    let w = fs.write_commit(&mut c);
    disk.store(w);
    let head = disk.text(&fs.head_file()).unwrap();
    let r = fs.record_new_head(&head, c.hash.as_ref().unwrap());
    disk.files.insert(r.path, r.content);
    disk.files.insert(index_file, index.clear().into_bytes());
    c
}

#[test]
fn end_to_end() {
    let fs = FileService::new("/work");
    let mut disk = Disk { files: HashMap::new() };
    init(&fs, &mut disk);

    let d1 = digest(b"hello");
    stage(&fs, &mut disk, "README", b"hello");
    assert_eq!(disk.text("/work/.tgit/index"), Some(format!("README {}\n", d1)));

    let first = do_commit(&fs, &mut disk);
    let c1 = first.hash.clone().unwrap();
    assert_eq!(disk.files.get(&fs.read_object(&d1)), Some(&b"hello".to_vec()));
    assert_eq!(disk.text("/work/.tgit/refs/heads/master"), Some(c1.clone()));
    assert_eq!(disk.text("/work/.tgit/index"), Some(String::new()));
    assert_eq!(first.parent, None);
    assert_eq!(disk.text(&fs.read_object(&c1)), Some(format!("blob {} README\n", d1)));

    let d2 = digest(b"hello world");
    stage(&fs, &mut disk, "README", b"hello world");
    let second = do_commit(&fs, &mut disk);
    let c2 = second.hash.clone().unwrap();
    assert_ne!(c1, c2);
    assert_eq!(second.parent, Some(c1.clone()));
    assert_eq!(second.files.len(), 1);
    assert_eq!(second.files.get("README"), Some(&d2));
    assert_eq!(disk.text("/work/.tgit/refs/heads/master"), Some(c2.clone()));
    assert_eq!(disk.text("/work/.tgit/index"), Some(String::new()));
    assert_eq!(disk.files.get(&fs.read_object(&d1)), Some(&b"hello".to_vec()));
    assert_eq!(disk.files.get(&fs.read_object(&d2)), Some(&b"hello world".to_vec()));

    let tip = head_commit(&fs, &disk).unwrap();
    assert_eq!(tip.hash, Some(c2));
    assert_eq!(tip.parent, Some(c1.clone()));
    assert_eq!(tip.files.get("README"), Some(&d2));
    let data = disk.files.get(&fs.read_object(&c1)).unwrap();
    let root = fs.read_commit(&c1, data).unwrap();
    assert_eq!(root.parent, None);
    assert_eq!(root.files.get("README"), Some(&d1));
}

#[test]
fn history_keeps_untouched_paths() {
    let fs = FileService::new("/work");
    let mut disk = Disk { files: HashMap::new() };
    init(&fs, &mut disk);
    stage(&fs, &mut disk, "a.txt", b"one");
    stage(&fs, &mut disk, "b.txt", b"two");
    do_commit(&fs, &mut disk);
    stage(&fs, &mut disk, "a.txt", b"three");
    let second = do_commit(&fs, &mut disk);
    assert_eq!(second.files.len(), 2);
    assert_eq!(second.files.get("a.txt"), Some(&digest(b"three")));
    assert_eq!(second.files.get("b.txt"), Some(&digest(b"two")));
    let third = do_commit(&fs, &mut disk);
    assert_eq!(third.parent, second.hash);
    assert_eq!(third.files.len(), 2);
}
