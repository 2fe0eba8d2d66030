use std::collections::{BTreeMap, BTreeSet};

use rptagfs::names::NameSet;
use rptagfs::path::FsPath;
use rptagfs::scanner::{
    components_to_tags, dir_path_to_tags, file_path_to_tags, find_free_bn, is_entered, is_shown,
    scan_tree, split_ext, FileEntry, Found, Kind, ScanResult,
};
use rptagfs::sorted_set::SortedSet;

fn s(text: &str) -> String {
    text.to_string()
}

fn names(list: &[&str]) -> NameSet {
    SortedSet::from_vec(list.iter().map(|t| t.to_string()).collect())
}

fn path(text: &str) -> FsPath {
    FsPath::from_text(text)
}

/// A source tree, by the path of each entry.
struct Tree {
    entries: BTreeMap<String, Option<Kind>>,
    links: BTreeSet<String>,
}

impl Tree {
    fn new() -> Tree {
        Tree { entries: BTreeMap::new(), links: BTreeSet::new() }
    }

    fn dir(&mut self, rel: &str) {
        let mut at = String::new();
        for part in rel.split('/') {
            if !at.is_empty() {
                at.push('/');
            }
            at.push_str(part);
            self.entries.insert(at.clone(), Some(Kind::Dir));
        }
    }

    fn file(&mut self, rel: &str) {
        if let Some(i) = rel.rfind('/') {
            self.dir(&rel[..i]);
        }
        self.entries.insert(s(rel), Some(Kind::File));
    }

    fn link(&mut self, rel: &str, target: Option<Kind>) {
        self.entries.insert(s(rel), target);
        self.links.insert(s(rel));
    }

    fn read(&self, dir: &str) -> Vec<Found> {
        let mut v = Vec::new();
        for (p, kind) in &self.entries {
            let (parent, name) = match p.rfind('/') {
                Some(i) => (&p[..i], &p[i + 1..]),
                None => ("", p.as_str()),
            };
            if parent == dir {
                let real_dir = *kind == Some(Kind::Dir) && !self.links.contains(p);
                let inside = if is_entered(kind, real_dir) { self.read(p) } else { Vec::new() };
                v.push(Found { name: name.as_bytes().to_vec(), target: *kind, real_dir, inside });
            }
        }
        v
    }

    fn scan(&self, show_hidden: bool) -> ScanResult {
        scan_tree(&self.read(""), show_hidden)
    }
}

fn file<'a>(r: &'a ScanResult, bn: &str) -> &'a FileEntry {
    r.files.get(&s(bn)).expect("the file is there")
}

fn has_file(r: &ScanResult, bn: &str) -> bool {
    r.files.contains_key(&s(bn))
}

fn has_tagdir(r: &ScanResult, tags: &[&str]) -> bool {
    r.tagdirs.contains_key(&names(tags))
}

fn keys(r: &ScanResult) -> BTreeSet<String> {
    let mut set = BTreeSet::new();
    for i in 0..r.files.len() {
        set.insert(r.files.key_at(i).clone());
    }
    set
}

#[test]
fn split_ext_basic() {
    assert_eq!(split_ext("file.txt"), ("file", ".txt"));
}

#[test]
fn split_ext_double() {
    assert_eq!(split_ext("file.tar.gz"), ("file.tar", ".gz"));
}

#[test]
fn split_ext_none() {
    assert_eq!(split_ext("file"), ("file", ""));
}

#[test]
fn split_ext_hidden() {
    assert_eq!(split_ext(".hidden"), (".hidden", ""));
}

#[test]
fn split_ext_trailing_dot() {
    assert_eq!(split_ext("file."), ("file", "."));
}

#[test]
fn split_ext_double_dot_prefix() {
    assert_eq!(split_ext("..foo"), (".", ".foo"));
}

#[test]
fn components_to_tags_basic() {
    assert_eq!(components_to_tags(&path("tag1/tag2")), names(&["tag1", "tag2"]));
}

#[test]
fn components_to_tags_empty() {
    assert_eq!(components_to_tags(&path("")), names(&[]));
}

#[test]
fn components_to_tags_single() {
    assert_eq!(components_to_tags(&path("tag1")), names(&["tag1"]));
}

#[test]
fn components_to_tags_plain_names_only() {
    assert_eq!(components_to_tags(&path("/a/../b/./a")), names(&["a", "b"]));
}

#[test]
fn components_to_tags_not_utf8() {
    let p = FsPath::from_bytes(&[b'a', 0xff, b'/', b'b']);
    assert_eq!(components_to_tags(&p), names(&["a\u{fffd}", "b"]));
}

#[test]
fn file_path_to_tags_nested() {
    assert_eq!(file_path_to_tags(&path("a/b/file.txt")), names(&["a", "b"]));
}

#[test]
fn file_path_to_tags_root() {
    assert_eq!(file_path_to_tags(&path("file.txt")), names(&[]));
}

#[test]
fn file_path_to_tags_deep() {
    assert_eq!(file_path_to_tags(&path("a/b/c/d/file.txt")), names(&["a", "b", "c", "d"]));
}

#[test]
fn dir_path_to_tags_basic() {
    assert_eq!(dir_path_to_tags(&path("tag1/tag2")), names(&["tag1", "tag2"]));
}

#[test]
fn dir_path_to_tags_single() {
    assert_eq!(dir_path_to_tags(&path("tag1")), names(&["tag1"]));
}

#[test]
fn dir_path_to_tags_empty() {
    assert_eq!(dir_path_to_tags(&path("")), names(&[]));
}

#[test]
fn find_free_bn_no_collision() {
    assert_eq!(find_free_bn("file.txt", &names(&[])), "file.txt");
}

#[test]
fn find_free_bn_one_collision() {
    assert_eq!(find_free_bn("file.txt", &names(&["file.txt"])), "file.__1.txt");
}

#[test]
fn find_free_bn_multi_collision() {
    assert_eq!(
        find_free_bn("file.txt", &names(&["file.txt", "file.__1.txt"])),
        "file.__2.txt"
    );
}

#[test]
fn find_free_bn_no_ext() {
    assert_eq!(find_free_bn("README", &names(&["README"])), "README.__1");
}

#[test]
fn find_free_bn_double_ext() {
    assert_eq!(
        find_free_bn("archive.tar.gz", &names(&["archive.tar.gz"])),
        "archive.tar.__1.gz"
    );
}

#[test]
fn find_free_bn_hidden_file_collision() {
    assert_eq!(find_free_bn(".hidden", &names(&[".hidden"])), ".hidden.__1");
}

#[test]
fn find_free_bn_dot_only() {
    assert_eq!(find_free_bn(".", &names(&["."])), "..__1");
}

#[test]
fn find_free_bn_gap_in_sequence() {
    assert_eq!(
        find_free_bn("f.txt", &names(&["f.txt", "f.__1.txt", "f.__3.txt"])),
        "f.__2.txt"
    );
}

#[test]
fn find_free_bn_two_digits() {
    let mut taken = vec![s("f.txt")];
    for i in 1..12 {
        taken.push(format!("f.__{}.txt", i));
    }
    assert_eq!(find_free_bn("f.txt", &SortedSet::from_vec(taken)), "f.__12.txt");
}

#[test]
fn scan_basic_structure() {
    let mut t = Tree::new();
    t.file("music/song.mp3");
    t.file("photos/pic.jpg");
    let r = t.scan(false);

    assert_eq!(r.files.len(), 2);
    assert!(has_file(&r, "song.mp3"));
    assert!(has_file(&r, "pic.jpg"));
    assert!(r.by_tags.contains_key(&s("music")));
    assert!(r.by_tags.contains_key(&s("photos")));
    assert!(r.by_tags.get(&s("music")).unwrap().contains(&s("song.mp3")));
    assert!(r.by_tags.get(&s("photos")).unwrap().contains(&s("pic.jpg")));
    assert!(has_tagdir(&r, &["music"]));
    assert!(has_tagdir(&r, &["photos"]));
}

#[test]
fn scan_files_at_root() {
    let mut t = Tree::new();
    t.file("readme.txt");
    t.file("notes.txt");
    let r = t.scan(false);

    assert_eq!(r.files.len(), 2);
    assert!(has_file(&r, "readme.txt"));
    assert!(has_file(&r, "notes.txt"));
    assert!(file(&r, "readme.txt").tags.is_empty());
    assert!(file(&r, "notes.txt").tags.is_empty());
    assert!(r.by_tags.is_empty());
    assert!(has_tagdir(&r, &[]));
}

#[test]
fn scan_deeply_nested() {
    let mut t = Tree::new();
    t.file("a/b/c/d/file.txt");
    let r = t.scan(false);

    assert_eq!(r.files.len(), 1);
    assert!(has_file(&r, "file.txt"));
    assert_eq!(file(&r, "file.txt").tags, names(&["a", "b", "c", "d"]));
    assert!(has_tagdir(&r, &["a"]));
    assert!(has_tagdir(&r, &["a", "b"]));
    assert!(has_tagdir(&r, &["a", "b", "c"]));
    assert!(has_tagdir(&r, &["a", "b", "c", "d"]));
}

#[test]
fn scan_hidden_excluded() {
    let mut t = Tree::new();
    t.file(".hidden");
    t.file(".dir/secret");
    t.file("visible.txt");
    let r = t.scan(false);

    assert_eq!(r.files.len(), 1);
    assert!(has_file(&r, "visible.txt"));
}

#[test]
fn scan_hidden_included() {
    let mut t = Tree::new();
    t.file(".hidden");
    t.file(".dir/secret");
    t.file("visible.txt");
    let r = t.scan(true);

    assert!(r.files.len() >= 3);
    assert!(has_file(&r, "visible.txt"));
    assert!(has_file(&r, ".hidden"));
    assert!(has_file(&r, "secret"));
}

#[test]
fn scan_empty_dir() {
    let r = Tree::new().scan(false);

    assert!(r.files.is_empty());
    assert!(r.tagdirs.is_empty());
    assert!(r.by_tags.is_empty());
}

#[test]
fn scan_no_subdirs() {
    let mut t = Tree::new();
    t.file("a.txt");
    t.file("b.txt");
    let r = t.scan(false);

    assert_eq!(r.files.len(), 2);
    assert!(r.by_tags.is_empty());
}

#[test]
fn scan_filename_collision() {
    let mut t = Tree::new();
    t.file("music/song.mp3");
    t.file("photos/song.mp3");
    let r = t.scan(false);

    assert_eq!(r.files.len(), 2);
    assert!(keys(&r).contains("song.mp3"));
    assert!(keys(&r).contains("song.__1.mp3"));
}

#[test]
fn scan_broken_symlink() {
    let mut t = Tree::new();
    t.file("valid.txt");
    t.link("broken_link", None);
    let r = t.scan(false);

    assert_eq!(r.files.len(), 1);
    assert!(has_file(&r, "valid.txt"));
}

#[test]
fn scan_symlink_to_file() {
    let mut t = Tree::new();
    t.file("real.txt");
    t.link("link.txt", Some(Kind::File));
    let r = t.scan(false);

    assert_eq!(r.files.len(), 2);
    assert!(has_file(&r, "real.txt"));
    assert!(has_file(&r, "link.txt"));
}

#[test]
fn scan_symlink_to_dir() {
    let mut t = Tree::new();
    t.file("realdir/file.txt");
    t.link("linkdir", Some(Kind::Dir));
    let r = t.scan(false);

    assert!(has_file(&r, "file.txt"));
    assert!(has_tagdir(&r, &["linkdir"]));
    assert_eq!(r.files.len(), 1);
}

#[test]
fn scan_symlink_to_dir_not_entered_even_if_read() {
    let inside = vec![Found {
        name: b"file.txt".to_vec(),
        target: Some(Kind::File),
        real_dir: false,
        inside: Vec::new(),
    }];
    let top =
        vec![Found { name: b"linkdir".to_vec(), target: Some(Kind::Dir), real_dir: false, inside }];
    let r = scan_tree(&top, false);

    assert!(r.files.is_empty());
    assert!(has_tagdir(&r, &["linkdir"]));
}

#[test]
fn scan_neither_file_nor_directory() {
    let mut t = Tree::new();
    t.link("pipe", Some(Kind::Other));
    let r = t.scan(true);

    assert!(r.files.is_empty());
    assert!(r.tagdirs.is_empty());
}

#[test]
fn scan_name_not_utf8() {
    let top = vec![Found {
        name: vec![b'a', 0xff],
        target: Some(Kind::File),
        real_dir: false,
        inside: Vec::new(),
    }];
    let r = scan_tree(&top, false);

    assert!(has_file(&r, "a\u{fffd}"));
    assert_eq!(file(&r, "a\u{fffd}").ffn, FsPath::from_bytes(&[b'a', 0xff]));
}

#[test]
fn shown_names() {
    assert!(is_shown(b"visible", false));
    assert!(!is_shown(b".hidden", false));
    assert!(is_shown(b".hidden", true));
}

#[test]
fn scan_duplicate_tag_path_components() {
    let mut t = Tree::new();
    t.file("rock/rock/file.txt");
    let r = t.scan(false);

    assert_eq!(r.files.len(), 1);
    assert!(has_file(&r, "file.txt"));
    assert_eq!(file(&r, "file.txt").tags, names(&["rock"]));
    assert!(has_tagdir(&r, &["rock"]));
    let rock_dirs = r.tagdirs.get(&names(&["rock"])).unwrap();
    assert!(rock_dirs.contains(&path("rock")));
    assert!(rock_dirs.contains(&path("rock/rock")));
}

#[test]
fn scan_three_way_filename_collision() {
    let mut t = Tree::new();
    t.file("a/file.txt");
    t.file("b/file.txt");
    t.file("c/file.txt");
    let r = t.scan(false);

    assert_eq!(r.files.len(), 3);
    let expected: BTreeSet<String> =
        [s("file.txt"), s("file.__1.txt"), s("file.__2.txt")].into_iter().collect();
    assert_eq!(keys(&r), expected);
}

#[test]
fn scan_collision_marker_in_original_name() {
    let mut t = Tree::new();
    t.file("a/file.txt");
    t.file("b/file.txt");
    t.file("c/file.__1.txt");
    let r = t.scan(false);

    assert_eq!(r.files.len(), 3);
    assert_eq!(keys(&r).len(), 3);
    let has_ffn = |p: &str| (0..r.files.len()).any(|i| r.files.value_at(i).ffn == path(p));
    assert!(has_ffn("a/file.txt"));
    assert!(has_ffn("b/file.txt"));
    assert!(has_ffn("c/file.__1.txt"));
}

#[test]
fn scan_file_at_root_and_in_subdir_same_name() {
    let mut t = Tree::new();
    t.file("file.txt");
    t.file("tag1/file.txt");
    let r = t.scan(false);

    assert_eq!(r.files.len(), 2);
    let has_tags = |l: &[&str]| (0..r.files.len()).any(|i| r.files.value_at(i).tags == names(l));
    assert!(has_tags(&[]));
    assert!(has_tags(&["tag1"]));
}

#[test]
fn scan_hidden_dir_contents_with_show_hidden() {
    let mut t = Tree::new();
    t.file(".hidden_dir/.secret");
    t.file("visible/normal.txt");

    let r = t.scan(true);
    assert!(has_file(&r, ".secret"));
    assert!(has_file(&r, "normal.txt"));
    assert_eq!(file(&r, ".secret").tags, names(&[".hidden_dir"]));

    let r = t.scan(false);
    assert!(!has_file(&r, ".secret"));
    assert!(has_file(&r, "normal.txt"));
    assert_eq!(r.files.len(), 1);
}

#[test]
fn scan_dir_only_no_files() {
    let mut t = Tree::new();
    t.dir("tag1/tag2");
    t.dir("tag3");
    let r = t.scan(false);

    assert!(r.files.is_empty());
    assert!(has_tagdir(&r, &["tag1"]));
    assert!(has_tagdir(&r, &["tag1", "tag2"]));
    assert!(has_tagdir(&r, &["tag3"]));
}

#[test]
fn scan_without_hidden_names_is_part_of_the_whole() {
    let mut t = Tree::new();
    t.file("a/.b/c.txt");
    t.file("a/d.txt");
    t.file(".e/f.txt");
    t.file(".g");
    let few = t.scan(false);
    let all = t.scan(true);
    assert_eq!(keys(&few).into_iter().collect::<Vec<String>>(), vec![s("d.txt")]);
    assert_eq!(keys(&all).len(), 4);
    assert_eq!(few.by_tags.len(), 1);
    assert!(few.by_tags.contains_key(&s("a")));
    for tag in ["a", ".b", ".e"] {
        assert!(all.by_tags.contains_key(&s(tag)));
    }
    assert!(has_tagdir(&few, &["a"]));
    assert!(!has_tagdir(&few, &["a", ".b"]));
}

#[test]
fn scan_is_the_same_without_what_it_passes_over() {
    let mut t = Tree::new();
    t.file("a/b.txt");
    t.file("c.txt");
    let want = t.scan(false);
    t.link("broken", None);
    t.link("a/pipe", Some(Kind::Other));
    t.file(".hidden/d.txt");
    let got = t.scan(false);
    assert_eq!(keys(&got), keys(&want));
    assert_eq!(got.tagdirs.len(), want.tagdirs.len());
    assert_eq!(got.by_tags.len(), want.by_tags.len());
    for i in 0..want.files.len() {
        assert_eq!(got.files.value_at(i).ffn, want.files.value_at(i).ffn);
        assert_eq!(got.files.value_at(i).tags, want.files.value_at(i).tags);
    }
}
