use std::collections::BTreeMap;

use rptagfs::attr::{dir_attr, file_attr, file_kind, Attr, FileKind, Stat, Time};
use rptagfs::inode::{
    InodeEntry, InodeTable, SpecialKind, ALL_INODE, ROOT_INODE, UNTAGGED_INODE,
};
use rptagfs::listing::readdirplus;
use rptagfs::names::{NameMap, NameSet, PathSet, TagMap};
use rptagfs::ops::{DiskOp, Outcome, Reply, Step};
use rptagfs::path::FsPath;
use rptagfs::scanner::{is_entered, scan_tree, FileEntry, Found, Kind};
use rptagfs::sorted_map::SortedMap;
use rptagfs::sorted_set::SortedSet;
use rptagfs::state::FsState;
use rptagfs::tagfs::{Errno, TagFs, Target};

const ENOENT: i32 = 2;
const EEXIST: i32 = 17;
const ENOTDIR: i32 = 20;
const ENOTEMPTY: i32 = 39;

fn s(text: &str) -> String {
    text.to_string()
}

fn names(list: &[&str]) -> NameSet {
    SortedSet::from_vec(list.iter().map(|t| t.to_string()).collect())
}

fn path(text: &str) -> FsPath {
    FsPath::from_text(text)
}

/// What is at a place of the disk.
#[derive(Clone, PartialEq, Debug)]
enum Item {
    Dir,
    File(String),
    Link,
}

/// A disk in memory. Places are named from the top of the source tree, which is
/// at `/src`.
struct Disk {
    items: BTreeMap<String, Item>,
}

fn parent_of(place: &str) -> &str {
    match place.rfind('/') {
        Some(i) => &place[..i],
        None => "",
    }
}

fn place_of(p: &FsPath) -> String {
    let text = String::from_utf8(p.to_bytes()).unwrap();
    if text == "/src" {
        return String::new();
    }
    text.strip_prefix("/src/").expect("below the source tree").to_string()
}

impl Disk {
    fn new() -> Disk {
        Disk { items: BTreeMap::new() }
    }

    fn is_there(&self, place: &str) -> bool {
        place.is_empty() || self.items.contains_key(place)
    }

    fn is_dir(&self, place: &str) -> bool {
        place.is_empty() || self.items.get(place) == Some(&Item::Dir)
    }

    fn create_dir_all(&mut self, place: &str) -> Result<(), i32> {
        let mut at = String::new();
        for part in place.split('/').filter(|p| !p.is_empty()) {
            if !at.is_empty() {
                at.push('/');
            }
            at.push_str(part);
            if !self.is_there(&at) {
                self.items.insert(at.clone(), Item::Dir);
            } else if !self.is_dir(&at) {
                return Err(ENOTDIR);
            }
        }
        Ok(())
    }

    fn write(&mut self, place: &str, data: &str) {
        assert!(self.is_dir(parent_of(place)));
        self.items.insert(s(place), Item::File(s(data)));
    }

    fn read(&self, place: &str) -> String {
        match self.items.get(place) {
            Some(Item::File(data)) => data.clone(),
            other => panic!("no file at {}: {:?}", place, other),
        }
    }

    fn remove_file(&mut self, place: &str) -> Result<(), i32> {
        match self.items.get(place) {
            Some(Item::Dir) | None => Err(ENOENT),
            Some(_) => {
                self.items.remove(place);
                Ok(())
            }
        }
    }

    fn inside(&self, place: &str) -> Vec<String> {
        let prefix = format!("{}/", place);
        self.items.keys().filter(|k| k.starts_with(&prefix)).cloned().collect()
    }

    fn remove_dir(&mut self, place: &str) -> Result<(), i32> {
        if !self.is_there(place) {
            return Err(ENOENT);
        }
        if !self.is_dir(place) {
            return Err(ENOTDIR);
        }
        if !self.inside(place).is_empty() {
            return Err(ENOTEMPTY);
        }
        self.items.remove(place);
        Ok(())
    }

    fn remove_dir_all(&mut self, place: &str) {
        for k in self.inside(place) {
            self.items.remove(&k);
        }
        self.items.remove(place);
    }

    fn rename(&mut self, from: &str, to: &str) -> Result<(), i32> {
        if !self.is_there(from) || !self.is_dir(parent_of(to)) {
            return Err(ENOENT);
        }
        for k in self.inside(from) {
            let item = self.items.remove(&k).unwrap();
            self.items.insert(format!("{}{}", to, &k[from.len()..]), item);
        }
        let item = self.items.remove(from).unwrap();
        self.items.insert(s(to), item);
        Ok(())
    }

    fn create_file(&mut self, place: &str) -> Result<(), i32> {
        if self.is_there(place) {
            return Err(EEXIST);
        }
        if !self.is_dir(parent_of(place)) {
            return Err(ENOENT);
        }
        self.items.insert(s(place), Item::File(String::new()));
        Ok(())
    }

    fn perform(&mut self, op: &DiskOp) -> Reply {
        let done = match op {
            DiskOp::Exists(p) => return Ok(self.is_there(&place_of(p))),
            DiskOp::CreateDirAll(p) => self.create_dir_all(&place_of(p)),
            DiskOp::Rename(p, q) => self.rename(&place_of(p), &place_of(q)),
            DiskOp::RemoveFile(p) => self.remove_file(&place_of(p)),
            DiskOp::RemoveDir(p) => self.remove_dir(&place_of(p)),
            DiskOp::CreateFile(p) => self.create_file(&place_of(p)),
        };
        match done {
            Ok(()) => Ok(true),
            Err(code) => Err(Some(code)),
        }
    }

    fn listing(&self, dir: &str) -> Vec<Found> {
        let mut v = Vec::new();
        for (place, item) in &self.items {
            if parent_of(place) == dir {
                let target = match item {
                    Item::Dir => Some(Kind::Dir),
                    _ => Some(Kind::File),
                };
                let real_dir = *item == Item::Dir;
                let inside =
                    if is_entered(&target, real_dir) { self.listing(place) } else { Vec::new() };
                let name = place[place.rfind('/').map_or(0, |i| i + 1)..].as_bytes().to_vec();
                v.push(Found { name, target, real_dir, inside });
            }
        }
        v
    }

    fn stat(&self, place: &str) -> Option<Stat> {
        let (symlink, size) = match self.items.get(place) {
            Some(Item::File(data)) => (false, data.len() as u64),
            Some(Item::Link) => (true, 0),
            _ => return None,
        };
        Some(Stat {
            symlink,
            size,
            blocks: 8,
            atime: None,
            mtime: None,
            ctime_sec: 0,
            ctime_nsec: 0,
            mode: 0o100644,
            nlink: 1,
            uid: 1000,
            gid: 1000,
            rdev: 0,
            blksize: 4096,
        })
    }
}

/// A disk with a filesystem over it.
struct World {
    disk: Disk,
    fs: Option<TagFs>,
}

impl World {
    fn over(disk: Disk) -> World {
        let scan = scan_tree(&disk.listing(""), false);
        World { disk, fs: Some(TagFs::new(path("/src"), scan)) }
    }

    fn standard() -> World {
        let mut d = Disk::new();
        d.create_dir_all("music/rock").unwrap();
        d.create_dir_all("photos").unwrap();
        d.write("music/song.mp3", "song data");
        d.write("music/rock/heavy.mp3", "heavy data");
        d.write("photos/pic.jpg", "pic data");
        d.write("readme.txt", "readme data");
        World::over(d)
    }

    fn multi_location() -> World {
        let mut d = Disk::new();
        d.create_dir_all("rock").unwrap();
        d.create_dir_all("pop/rock").unwrap();
        d.write("rock/a.txt", "a data");
        d.write("pop/rock/b.txt", "b data");
        d.write("readme.txt", "readme");
        World::over(d)
    }

    fn fs(&self) -> &TagFs {
        self.fs.as_ref().unwrap()
    }

    fn fs_mut(&mut self) -> &mut TagFs {
        self.fs.as_mut().unwrap()
    }

    fn state(&self) -> &FsState {
        &self.fs().state
    }

    fn run<F: FnOnce(TagFs) -> Step>(&mut self, start: F) -> Result<Outcome, Errno> {
        let mut step = start(self.fs.take().unwrap());
        loop {
            match step {
                Step::Ask(op, pending) => {
                    let reply = self.disk.perform(&op);
                    step = pending.resume(reply);
                }
                Step::End(fs, result) => {
                    self.fs = Some(fs);
                    return result;
                }
            }
        }
    }

    fn done<F: FnOnce(TagFs) -> Step>(&mut self, start: F) {
        match self.run(start) {
            Ok(Outcome::Done) => {}
            Ok(_) => panic!("another outcome"),
            Err(e) => panic!("refused: {:?}", e),
        }
    }

    fn inode<F: FnOnce(TagFs) -> Step>(&mut self, start: F) -> u64 {
        match self.run(start) {
            Ok(Outcome::Inode(ino)) => ino,
            Ok(_) => panic!("another outcome"),
            Err(e) => panic!("refused: {:?}", e),
        }
    }

    fn refused<F: FnOnce(TagFs) -> Step>(&mut self, start: F) -> Errno {
        match self.run(start) {
            Ok(_) => panic!("not refused"),
            Err(e) => e,
        }
    }

    fn get_dir_for_tags(&mut self, tags: &[&str]) -> FsPath {
        match self.run(|fs| fs.get_dir_for_tags(&names(tags))) {
            Ok(Outcome::Dir(p)) => p,
            Ok(_) => panic!("another outcome"),
            Err(e) => panic!("refused: {:?}", e),
        }
    }

    fn retag(&mut self, bn: &str, add: &[&str], remove: &[&str]) {
        self.done(|fs| fs.add_remove_tags(&s(bn), &names(add), &names(remove)));
    }

    fn rename_file(&mut self, old: &str, new: &str) {
        self.done(|fs| fs.rename_file(&s(old), &s(new)));
    }

    fn rename_tag(&mut self, old: &str, new: &str) {
        self.done(|fs| fs.rename_tag(&s(old), &s(new)));
    }

    fn has_file(&self, bn: &str) -> bool {
        self.state().files.contains_key(&s(bn))
    }

    fn file(&self, bn: &str) -> &FileEntry {
        self.state().files.get(&s(bn)).expect("the file is there")
    }

    fn ffn(&self, bn: &str) -> String {
        String::from_utf8(self.file(bn).ffn.to_bytes()).unwrap()
    }

    fn tags(&self, bn: &str) -> Vec<String> {
        list(&self.file(bn).tags)
    }

    fn has_tag(&self, tag: &str) -> bool {
        self.state().by_tags.contains_key(&s(tag))
    }

    fn tagged(&self, tag: &str) -> &NameSet {
        self.state().by_tags.get(&s(tag)).expect("the tag is there")
    }

    fn has_tagdir(&self, tags: &[&str]) -> bool {
        self.state().tagdirs.contains_key(&names(tags))
    }

    fn avail(&self, tags: &[&str]) -> Vec<String> {
        list(&self.state().get_avail_tags(&names(tags)))
    }

    fn matching(&self, tags: &[&str]) -> Vec<String> {
        list(&self.state().get_matching_files(&names(tags)))
    }

    fn untagged(&self) -> Vec<String> {
        list(&self.state().get_untagged_files())
    }

    /// The inode of the directory with these tags, looked up tag by tag.
    fn dir(&mut self, tags: &[&str]) -> u64 {
        let mut ino = ROOT_INODE;
        for tag in tags {
            ino = match self.fs_mut().lookup(ino, tag.as_bytes()) {
                Ok((ino, Target::Dir)) => ino,
                Ok(_) => panic!("a file"),
                Err(e) => panic!("not found: {:?}", e),
            };
        }
        ino
    }

    /// Everything that the filesystem knows is in its place.
    fn agrees(&self) {
        let state = self.state();
        for i in 0..state.files.len() {
            let place = String::from_utf8(state.files.value_at(i).ffn.to_bytes()).unwrap();
            assert!(matches!(self.disk.items.get(&place), Some(Item::File(_))), "{}", place);
        }
        for i in 0..state.tagdirs.len() {
            let dirs = state.tagdirs.value_at(i);
            for j in 0..dirs.len() {
                let place = String::from_utf8(dirs.at(j).to_bytes()).unwrap();
                assert!(self.disk.is_dir(&place), "{}", place);
            }
        }
    }

    fn file_attr(&self, ino: u64, bn: &str) -> Result<Attr, Errno> {
        let p = self.fs().resolve_file_path(&s(bn))?;
        match self.disk.stat(&place_of(&p)) {
            Some(stat) => Ok(file_attr(ino, &stat)),
            None => Err(Errno::Os(ENOENT)),
        }
    }

    fn file_kind(&self, bn: &str) -> FileKind {
        let symlink = match self.fs().resolve_file_path(&s(bn)) {
            Ok(p) => self.disk.stat(&place_of(&p)).map(|stat| stat.symlink),
            Err(_) => None,
        };
        file_kind(symlink)
    }
}

fn list(set: &NameSet) -> Vec<String> {
    (0..set.len()).map(|i| set.at(i).clone()).collect()
}

fn strs(list: &[&str]) -> Vec<String> {
    let mut v: Vec<String> = list.iter().map(|t| t.to_string()).collect();
    v.sort();
    v
}

fn has(list: &[String], name: &str) -> bool {
    list.iter().any(|t| t == name)
}

fn empty_state() -> FsState {
    FsState {
        files: SortedMap::new(),
        tagdirs: SortedMap::new(),
        by_tags: SortedMap::new(),
        inode_table: InodeTable::new(),
    }
}

fn entry(ffn: &str, tags: &[&str]) -> FileEntry {
    FileEntry { ffn: path(ffn), tags: names(tags) }
}

#[test]
fn inode_table_new_has_root() {
    let tbl = InodeTable::new();
    match tbl.get(ROOT_INODE) {
        Some(InodeEntry::Dir(tags)) => assert!(tags.is_empty()),
        other => panic!("{:?}", other),
    }
}

#[test]
fn inode_table_alloc_dir() {
    let mut tbl = InodeTable::new();
    let ino = tbl.get_or_alloc_dir(&names(&["a"]));
    assert!(ino >= 4);
    match tbl.get(ino) {
        Some(InodeEntry::Dir(t)) => assert_eq!(t, &names(&["a"])),
        other => panic!("{:?}", other),
    }
}

#[test]
fn inode_table_alloc_dir_idempotent() {
    let mut tbl = InodeTable::new();
    let ino1 = tbl.get_or_alloc_dir(&names(&["a"]));
    let ino2 = tbl.get_or_alloc_dir(&names(&["a"]));
    assert_eq!(ino1, ino2);
}

#[test]
fn inode_table_alloc_file() {
    let mut tbl = InodeTable::new();
    let ino = tbl.get_or_alloc_file(&s("f.txt"));
    assert!(ino >= 4);
    match tbl.get(ino) {
        Some(InodeEntry::File(bn)) => assert_eq!(bn, "f.txt"),
        other => panic!("{:?}", other),
    }
}

#[test]
fn inode_table_alloc_file_idempotent() {
    let mut tbl = InodeTable::new();
    let ino1 = tbl.get_or_alloc_file(&s("f.txt"));
    let ino2 = tbl.get_or_alloc_file(&s("f.txt"));
    assert_eq!(ino1, ino2);
}

#[test]
fn inode_table_dir_file_distinct() {
    let mut tbl = InodeTable::new();
    let dir_ino = tbl.get_or_alloc_dir(&names(&["a"]));
    let file_ino = tbl.get_or_alloc_file(&s("a"));
    assert_ne!(dir_ino, file_ino);
}

#[test]
fn inode_table_get_nonexistent() {
    let tbl = InodeTable::new();
    assert!(tbl.get(9999).is_none());
}

#[test]
fn inode_table_remove_file() {
    let mut tbl = InodeTable::new();
    let ino = tbl.get_or_alloc_file(&s("f.txt"));
    tbl.remove_file(&s("f.txt"));
    assert!(tbl.get(ino).is_none());
    assert!(tbl.file_inode(&s("f.txt")).is_none());
}

#[test]
fn inode_table_remove_dir() {
    let mut tbl = InodeTable::new();
    let tags = names(&["a"]);
    let ino = tbl.get_or_alloc_dir(&tags);
    tbl.remove_dir(&tags);
    assert!(tbl.get(ino).is_none());
    assert!(tbl.dir_inode(&tags).is_none());
}

#[test]
fn inode_table_has_special_dirs() {
    let tbl = InodeTable::new();
    match tbl.get(ALL_INODE) {
        Some(InodeEntry::SpecialDir(kind)) => assert_eq!(*kind, SpecialKind::All),
        other => panic!("{:?}", other),
    }
    match tbl.get(UNTAGGED_INODE) {
        Some(InodeEntry::SpecialDir(kind)) => assert_eq!(*kind, SpecialKind::Untagged),
        other => panic!("{:?}", other),
    }
}

#[test]
fn dynamic_inodes_start_after_reserved() {
    let mut tbl = InodeTable::new();
    let ino = tbl.get_or_alloc_dir(&names(&["x"]));
    assert!(ino >= 4, "inode {}", ino);
}

#[test]
fn avail_tags_at_root() {
    let w = World::standard();
    assert_eq!(w.avail(&[]), strs(&["music", "rock", "photos"]));
}

#[test]
fn avail_tags_single() {
    let w = World::standard();
    assert_eq!(w.avail(&["music"]), strs(&["rock"]));
}

#[test]
fn avail_tags_full() {
    let w = World::standard();
    assert!(w.avail(&["music", "rock"]).is_empty());
}

#[test]
fn avail_tags_nonexistent() {
    let w = World::standard();
    assert!(w.avail(&["nonexistent"]).is_empty());
}

#[test]
fn avail_tags_partial() {
    let w = World::standard();
    assert!(w.avail(&["photos"]).is_empty());
}

#[test]
fn matching_files_root() {
    let w = World::standard();
    let files = w.matching(&[]);
    assert_eq!(files.len(), 4);
    assert!(has(&files, "song.mp3"));
    assert!(has(&files, "heavy.mp3"));
    assert!(has(&files, "pic.jpg"));
    assert!(has(&files, "readme.txt"));
}

#[test]
fn matching_files_single_tag() {
    let w = World::standard();
    let files = w.matching(&["music"]);
    assert_eq!(files.len(), 2);
    assert!(has(&files, "song.mp3"));
    assert!(has(&files, "heavy.mp3"));
}

#[test]
fn matching_files_two_tags() {
    let w = World::standard();
    let files = w.matching(&["music", "rock"]);
    assert_eq!(files.len(), 1);
    assert!(has(&files, "heavy.mp3"));
}

#[test]
fn matching_files_nonexistent() {
    let w = World::standard();
    assert!(w.matching(&["nonexistent"]).is_empty());
}

#[test]
fn matching_files_photos() {
    let w = World::standard();
    let files = w.matching(&["photos"]);
    assert_eq!(files.len(), 1);
    assert!(has(&files, "pic.jpg"));
}

#[test]
fn file_and_tag_same_name() {
    let mut files: NameMap<FileEntry> = SortedMap::new();
    files.insert(s("music"), entry("rock/music", &["rock"]));
    files.insert(s("song.mp3"), entry("music/song.mp3", &["music"]));
    let mut tagdirs: TagMap<PathSet> = SortedMap::new();
    tagdirs.add(&names(&["music"]), path("music"));
    tagdirs.add(&names(&["rock"]), path("rock"));
    let mut by_tags: NameMap<NameSet> = SortedMap::new();
    by_tags.add(&s("music"), s("song.mp3"));
    by_tags.add(&s("rock"), s("music"));
    let state = FsState { files, tagdirs, by_tags, inode_table: InodeTable::new() };

    assert!(state.get_matching_files(&names(&["rock"])).contains(&s("music")));
    assert!(state.get_avail_tags(&names(&[])).contains(&s("music")));
}

#[test]
fn empty_filesystem() {
    let state = empty_state();
    assert!(state.get_avail_tags(&names(&[])).is_empty());
    assert!(state.get_matching_files(&names(&[])).is_empty());
}

#[test]
fn single_file_no_tags() {
    let mut state = empty_state();
    state.files.insert(s("lonely.txt"), entry("lonely.txt", &[]));

    let root_files = state.get_matching_files(&names(&[]));
    assert_eq!(root_files.len(), 1);
    assert!(root_files.contains(&s("lonely.txt")));
    assert!(state.get_avail_tags(&names(&[])).is_empty());
}

#[test]
fn many_tags_deep() {
    let all = ["a", "b", "c", "d", "e"];
    let mut state = empty_state();
    state.files.insert(s("file.txt"), entry("a/b/c/d/e/file.txt", &all));
    state.tagdirs.add(&names(&all), path("a/b/c/d/e"));
    for t in &all {
        state.by_tags.add(&s(t), s("file.txt"));
    }

    assert_eq!(state.get_avail_tags(&names(&[])).len(), 5);
    let after_a = state.get_avail_tags(&names(&["a"]));
    assert_eq!(after_a.len(), 4);
    assert!(!after_a.contains(&s("a")));
    assert_eq!(state.get_avail_tags(&names(&["a", "b", "c", "d"])), names(&["e"]));
    assert!(state.get_avail_tags(&names(&all)).is_empty());
}

#[test]
fn tag_order_canonical_inode() {
    let mut w = World::standard();
    let ino1 = w.fs_mut().state.inode_table.get_or_alloc_dir(&names(&["a", "b"]));
    let mut tags2: NameSet = SortedSet::new();
    tags2.insert(s("b"));
    tags2.insert(s("a"));
    let ino2 = w.fs_mut().state.inode_table.get_or_alloc_dir(&tags2);
    assert_eq!(ino1, ino2);
}

#[test]
fn get_untagged_files_basic() {
    let w = World::standard();
    let untagged = w.untagged();
    assert_eq!(untagged.len(), 1);
    assert!(has(&untagged, "readme.txt"));
}

#[test]
fn get_untagged_files_none() {
    let mut state = empty_state();
    state.files.insert(s("song.mp3"), entry("music/song.mp3", &["music"]));
    assert!(state.get_untagged_files().is_empty());
}

#[test]
fn get_untagged_files_all_untagged() {
    let mut state = empty_state();
    state.files.insert(s("a.txt"), entry("a.txt", &[]));
    state.files.insert(s("b.txt"), entry("b.txt", &[]));
    let untagged = state.get_untagged_files();
    assert_eq!(untagged.len(), 2);
    assert!(untagged.contains(&s("a.txt")));
    assert!(untagged.contains(&s("b.txt")));
}

#[test]
fn empty_filesystem_untagged() {
    assert!(empty_state().get_untagged_files().is_empty());
}

#[test]
fn get_dir_for_tags_existing() {
    let mut w = World::standard();
    w.disk = Disk::new();
    assert_eq!(w.get_dir_for_tags(&["music"]), path("music"));
}

#[test]
fn get_dir_for_tags_empty() {
    let mut w = World::standard();
    w.disk = Disk::new();
    assert_eq!(w.get_dir_for_tags(&[]), path(""));
}

#[test]
fn replace_tag_in_path_basic() {
    let result = FsState::replace_tag_in_path(&path("music/rock"), "rock", "metal");
    assert_eq!(result, path("music/metal"));
}

#[test]
fn replace_tag_in_path_first() {
    let result = FsState::replace_tag_in_path(&path("rock/heavy.mp3"), "rock", "metal");
    assert_eq!(result, path("metal/heavy.mp3"));
}

#[test]
fn replace_tag_in_path_no_match() {
    let result = FsState::replace_tag_in_path(&path("music/jazz"), "rock", "metal");
    assert_eq!(result, path("music/jazz"));
}

#[test]
fn rename_file_basic() {
    let mut w = World::standard();
    w.rename_file("song.mp3", "track.mp3");

    assert!(!w.disk.is_there("music/song.mp3"));
    assert!(w.disk.is_there("music/track.mp3"));
    assert_eq!(w.disk.read("music/track.mp3"), "song data");
    assert!(!w.has_file("song.mp3"));
    assert!(w.has_file("track.mp3"));
    assert_eq!(w.ffn("track.mp3"), "music/track.mp3");
    assert_eq!(w.tags("track.mp3"), strs(&["music"]));
    assert!(w.tagged("music").contains(&s("track.mp3")));
    assert!(!w.tagged("music").contains(&s("song.mp3")));
}

#[test]
fn rename_file_collision() {
    let mut w = World::standard();
    let err = w.refused(|fs| fs.rename_file(&s("song.mp3"), &s("heavy.mp3")));
    assert_eq!(err, Errno::Exist);
    assert!(w.disk.is_there("music/song.mp3"));
    assert!(w.has_file("song.mp3"));
}

#[test]
fn rename_file_nonexistent() {
    let mut w = World::standard();
    let err = w.refused(|fs| fs.rename_file(&s("nope.txt"), &s("new.txt")));
    assert_eq!(err, Errno::NoEnt);
}

#[test]
fn rename_file_untagged() {
    let mut w = World::standard();
    w.rename_file("readme.txt", "notes.txt");
    assert!(!w.disk.is_there("readme.txt"));
    assert!(w.disk.is_there("notes.txt"));
    assert!(w.has_file("notes.txt"));
    assert!(w.tags("notes.txt").is_empty());
}

#[test]
fn add_tag_to_file() {
    let mut w = World::standard();
    w.retag("song.mp3", &["rock"], &[]);
    assert!(!w.disk.is_there("music/song.mp3"));
    assert!(w.disk.is_there("music/rock/song.mp3"));
    assert_eq!(w.tags("song.mp3"), strs(&["music", "rock"]));
    assert!(w.tagged("rock").contains(&s("song.mp3")));
}

#[test]
fn remove_tag_from_file() {
    let mut w = World::standard();
    w.retag("heavy.mp3", &[], &["rock"]);
    assert!(!w.disk.is_there("music/rock/heavy.mp3"));
    assert!(w.disk.is_there("music/heavy.mp3"));
    assert_eq!(w.tags("heavy.mp3"), strs(&["music"]));
    assert!(!w.tagged("rock").contains(&s("heavy.mp3")));
    assert!(w.tagged("music").contains(&s("heavy.mp3")));
}

#[test]
fn remove_all_tags_from_file() {
    let mut w = World::standard();
    w.retag("song.mp3", &[], &["music"]);
    assert!(!w.disk.is_there("music/song.mp3"));
    assert!(w.disk.is_there("song.mp3"));
    assert!(w.tags("song.mp3").is_empty());
    assert!(!w.tagged("music").contains(&s("song.mp3")));
}

#[test]
fn swap_tags_on_file() {
    let mut w = World::standard();
    w.retag("song.mp3", &["photos"], &["music"]);
    assert!(!w.disk.is_there("music/song.mp3"));
    assert!(w.disk.is_there("photos/song.mp3"));
    assert_eq!(w.tags("song.mp3"), strs(&["photos"]));
    assert!(!w.tagged("music").contains(&s("song.mp3")));
    assert!(w.tagged("photos").contains(&s("song.mp3")));
}

#[test]
fn add_tags_creates_new_dir() {
    let mut w = World::standard();
    w.retag("song.mp3", &["jazz"], &["music"]);
    assert!(w.disk.is_dir("jazz"));
    assert!(w.disk.is_there("jazz/song.mp3"));
    assert_eq!(w.tags("song.mp3"), strs(&["jazz"]));
    assert!(w.has_tag("jazz"));
    assert!(w.tagged("jazz").contains(&s("song.mp3")));
}

#[test]
fn add_remove_tags_noop() {
    let mut w = World::standard();
    w.retag("song.mp3", &[], &[]);
    assert!(w.disk.is_there("music/song.mp3"));
    assert_eq!(w.tags("song.mp3"), strs(&["music"]));
}

#[test]
fn rename_tag_basic() {
    let mut w = World::standard();
    w.rename_tag("music", "audio");

    assert!(!w.disk.is_there("music"));
    assert!(w.disk.is_dir("audio"));
    assert!(w.disk.is_dir("audio/rock"));
    assert!(w.disk.is_there("audio/song.mp3"));
    assert!(w.disk.is_there("audio/rock/heavy.mp3"));
    assert_eq!(w.disk.read("audio/song.mp3"), "song data");
    assert_eq!(w.tags("song.mp3"), strs(&["audio"]));
    assert_eq!(w.ffn("song.mp3"), "audio/song.mp3");
    assert_eq!(w.tags("heavy.mp3"), strs(&["audio", "rock"]));
    assert_eq!(w.ffn("heavy.mp3"), "audio/rock/heavy.mp3");
    assert!(!w.has_tag("music"));
    assert!(w.has_tag("audio"));
    assert!(w.tagged("audio").contains(&s("song.mp3")));
    assert!(w.tagged("audio").contains(&s("heavy.mp3")));
    assert!(w.has_tagdir(&["audio"]));
    assert!(w.has_tagdir(&["audio", "rock"]));
    assert!(!w.has_tagdir(&["music"]));
}

#[test]
fn rename_tag_collision() {
    let mut w = World::standard();
    let err = w.refused(|fs| fs.rename_tag(&s("music"), &s("rock")));
    assert_eq!(err, Errno::Exist);
}

#[test]
fn rename_tag_noop_same_name() {
    let mut w = World::standard();
    w.rename_tag("music", "music");
    assert!(w.disk.is_there("music/song.mp3"));
}

#[test]
fn rename_tag_leaf() {
    let mut w = World::standard();
    w.rename_tag("rock", "metal");

    assert!(!w.disk.is_there("music/rock"));
    assert!(w.disk.is_dir("music/metal"));
    assert!(w.disk.is_there("music/metal/heavy.mp3"));
    assert_eq!(w.tags("heavy.mp3"), strs(&["music", "metal"]));
    assert_eq!(w.ffn("heavy.mp3"), "music/metal/heavy.mp3");
    assert!(!w.has_tag("rock"));
    assert!(w.tagged("metal").contains(&s("heavy.mp3")));
    assert_eq!(w.tags("song.mp3"), strs(&["music"]));
}

#[test]
fn get_dir_for_tags_creates_new() {
    let mut w = World::standard();
    assert_eq!(w.get_dir_for_tags(&["jazz"]), path("jazz"));
    assert!(w.disk.is_dir("jazz"));
    assert!(w.has_tagdir(&["jazz"]));
    assert!(w.has_tag("jazz"));
}

#[test]
fn get_dir_for_tags_creates_multi() {
    let mut w = World::standard();
    assert_eq!(w.get_dir_for_tags(&["alpha", "beta"]), path("alpha/beta"));
    assert!(w.disk.is_dir("alpha/beta"));
}

#[test]
fn rename_and_retag_file() {
    let mut w = World::standard();
    w.rename_file("song.mp3", "track.mp3");
    w.retag("track.mp3", &["photos"], &["music"]);
    assert!(!w.disk.is_there("music/song.mp3"));
    assert!(!w.disk.is_there("music/track.mp3"));
    assert!(w.disk.is_there("photos/track.mp3"));
    assert_eq!(w.tags("track.mp3"), strs(&["photos"]));
}

#[test]
fn unlink_state_cleanup() {
    let mut w = World::standard();
    w.fs_mut().state.inode_table.get_or_alloc_file(&s("song.mp3"));
    w.done(|fs| fs.unlink(ALL_INODE, b"song.mp3"));

    assert!(!w.has_file("song.mp3"));
    assert!(!w.tagged("music").contains(&s("song.mp3")));
    assert!(w.tagged("music").contains(&s("heavy.mp3")));
    let music_files = w.matching(&["music"]);
    assert!(!has(&music_files, "song.mp3"));
    assert!(has(&music_files, "heavy.mp3"));
    assert!(!w.disk.is_there("music/song.mp3"));
    assert!(w.state().inode_table.file_inode(&s("song.mp3")).is_none());
}

#[test]
fn mkdir_creates_tag_dir() {
    let mut w = World::standard();
    w.inode(|fs| fs.mkdir(ROOT_INODE, b"jazz"));
    assert!(w.disk.is_dir("jazz"));
    assert!(w.has_tagdir(&["jazz"]));
    assert!(has(&w.avail(&[]), "jazz"));
}

#[test]
fn mkdir_nested_creates_tag_dir() {
    let mut w = World::standard();
    let music = w.dir(&["music"]);
    w.inode(|fs| fs.mkdir(music, b"jazz"));
    assert!(w.disk.is_dir("jazz/music"));
    assert!(w.has_tagdir(&["music", "jazz"]));
}

#[test]
fn rmdir_removes_empty_tag_dir() {
    let mut w = World::standard();
    w.retag("pic.jpg", &["music"], &["photos"]);
    w.done(|fs| fs.rmdir(ROOT_INODE, b"photos"));
    assert!(!w.disk.is_there("photos"));
    assert!(!w.has_tagdir(&["photos"]));
}

#[test]
fn create_file_with_tags() {
    let mut w = World::standard();
    let music = w.dir(&["music"]);
    w.inode(|fs| fs.create(music, b"new_song.mp3"));
    assert!(w.disk.is_there("music/new_song.mp3"));
    assert!(w.has_file("new_song.mp3"));
    assert!(w.tagged("music").contains(&s("new_song.mp3")));
    assert!(has(&w.matching(&["music"]), "new_song.mp3"));
}

#[test]
fn create_file_untagged() {
    let mut w = World::standard();
    w.inode(|fs| fs.create(ROOT_INODE, b"new.txt"));
    assert!(w.disk.is_there("new.txt"));
    assert!(w.tags("new.txt").is_empty());
    assert!(has(&w.untagged(), "new.txt"));
}

#[test]
fn rename_tag_multiple_independent_locations() {
    let mut w = World::multi_location();
    w.rename_tag("rock", "metal");

    assert!(!w.disk.is_there("rock"));
    assert!(w.disk.is_dir("metal"));
    assert!(!w.disk.is_there("pop/rock"));
    assert!(w.disk.is_dir("pop/metal"));
    assert!(w.disk.is_there("metal/a.txt"));
    assert!(w.disk.is_there("pop/metal/b.txt"));
    assert_eq!(w.disk.read("metal/a.txt"), "a data");
    assert_eq!(w.disk.read("pop/metal/b.txt"), "b data");
    assert_eq!(w.tags("a.txt"), strs(&["metal"]));
    assert_eq!(w.ffn("a.txt"), "metal/a.txt");
    assert_eq!(w.tags("b.txt"), strs(&["metal", "pop"]));
    assert_eq!(w.ffn("b.txt"), "pop/metal/b.txt");
    assert!(!w.has_tag("rock"));
    assert!(w.tagged("metal").contains(&s("a.txt")));
    assert!(w.tagged("metal").contains(&s("b.txt")));
    assert!(w.tagged("pop").contains(&s("b.txt")));
    assert!(w.has_tagdir(&["metal"]));
    assert!(w.has_tagdir(&["metal", "pop"]));
    assert!(!w.has_tagdir(&["rock"]));
    assert_eq!(w.ffn("readme.txt"), "readme.txt");
    assert!(w.tags("readme.txt").is_empty());
}

#[test]
fn add_remove_tags_preserves_superset() {
    let mut w = World::standard();
    w.retag("heavy.mp3", &[], &["music"]);
    assert_eq!(w.tags("heavy.mp3"), strs(&["rock"]));
    assert_eq!(w.ffn("heavy.mp3"), "rock/heavy.mp3");
    assert!(!w.disk.is_there("music/rock/heavy.mp3"));
    assert!(w.disk.is_there("rock/heavy.mp3"));
    assert_eq!(w.disk.read("rock/heavy.mp3"), "heavy data");
    assert!(!w.tagged("music").contains(&s("heavy.mp3")));
    assert!(w.tagged("rock").contains(&s("heavy.mp3")));
}

#[test]
fn add_remove_tags_strip_all_tags() {
    let mut w = World::standard();
    w.retag("heavy.mp3", &[], &["music", "rock"]);
    assert!(w.tags("heavy.mp3").is_empty());
    assert_eq!(w.ffn("heavy.mp3"), "heavy.mp3");
    assert!(!w.disk.is_there("music/rock/heavy.mp3"));
    assert!(w.disk.is_there("heavy.mp3"));
    assert_eq!(w.disk.read("heavy.mp3"), "heavy data");
    assert!(!w.tagged("music").contains(&s("heavy.mp3")));
    assert!(!w.tagged("rock").contains(&s("heavy.mp3")));
    assert!(has(&w.untagged(), "heavy.mp3"));
}

#[test]
fn add_tags_to_untagged_file() {
    let mut w = World::standard();
    w.retag("readme.txt", &["photos"], &[]);
    assert!(!w.disk.is_there("readme.txt"));
    assert!(w.disk.is_there("photos/readme.txt"));
    assert_eq!(w.tags("readme.txt"), strs(&["photos"]));
    assert_eq!(w.ffn("readme.txt"), "photos/readme.txt");
    assert!(w.tagged("photos").contains(&s("readme.txt")));
    assert!(!has(&w.untagged(), "readme.txt"));
}

#[test]
fn rename_file_and_retag_combined() {
    let mut w = World::standard();
    w.rename_file("heavy.mp3", "riff.mp3");
    w.retag("riff.mp3", &["photos"], &["music", "rock"]);
    assert!(!w.disk.is_there("music/rock/heavy.mp3"));
    assert!(!w.disk.is_there("music/rock/riff.mp3"));
    assert!(w.disk.is_there("photos/riff.mp3"));
    assert_eq!(w.disk.read("photos/riff.mp3"), "heavy data");
    assert!(!w.has_file("heavy.mp3"));
    assert_eq!(w.tags("riff.mp3"), strs(&["photos"]));
    assert_eq!(w.ffn("riff.mp3"), "photos/riff.mp3");
    assert!(w.tagged("photos").contains(&s("riff.mp3")));
    assert!(!w.tagged("music").contains(&s("riff.mp3")));
    assert!(!w.tagged("rock").contains(&s("riff.mp3")));
}

#[test]
fn unlink_last_file_with_tag() {
    let mut w = World::standard();
    w.done(|fs| fs.unlink(ALL_INODE, b"pic.jpg"));
    assert!(w.has_tag("photos"));
    assert!(w.tagged("photos").is_empty());
    assert!(w.matching(&["photos"]).is_empty());
    assert!(has(&w.avail(&[]), "photos"));
}

#[test]
fn create_then_unlink_lifecycle() {
    let mut w = World::standard();
    let dir = w.dir(&["music", "rock"]);
    w.inode(|fs| fs.create(dir, b"new.mp3"));
    assert!(w.disk.is_there("music/rock/new.mp3"));
    assert!(w.has_file("new.mp3"));
    assert!(w.tagged("music").contains(&s("new.mp3")));
    assert!(w.tagged("rock").contains(&s("new.mp3")));
    assert!(has(&w.matching(&["music", "rock"]), "new.mp3"));

    w.done(|fs| fs.unlink(dir, b"new.mp3"));
    assert!(!w.disk.is_there("music/rock/new.mp3"));
    assert!(!w.has_file("new.mp3"));
    assert!(!w.tagged("music").contains(&s("new.mp3")));
    assert!(!w.tagged("rock").contains(&s("new.mp3")));
    let matching = w.matching(&["music", "rock"]);
    assert!(!has(&matching, "new.mp3"));
    assert!(has(&matching, "heavy.mp3"));
}

#[test]
fn mkdir_then_rmdir_lifecycle() {
    let mut w = World::standard();
    w.inode(|fs| fs.mkdir(ROOT_INODE, b"jazz"));
    assert!(w.disk.is_dir("jazz"));
    assert!(w.has_tagdir(&["jazz"]));
    assert!(has(&w.avail(&[]), "jazz"));

    w.done(|fs| fs.rmdir(ROOT_INODE, b"jazz"));
    assert!(!w.disk.is_there("jazz"));
    assert!(!w.has_tagdir(&["jazz"]));
    assert!(!has(&w.avail(&[]), "jazz"));
}

#[test]
fn rename_tag_empty_tag_no_files() {
    let mut w = World::standard();
    w.get_dir_for_tags(&["jazz"]);
    w.rename_tag("jazz", "blues");
    assert!(!w.disk.is_there("jazz"));
    assert!(w.disk.is_dir("blues"));
    assert!(!w.has_tagdir(&["jazz"]));
    assert!(w.has_tagdir(&["blues"]));
    assert!(!w.has_tag("jazz"));
    assert!(w.has_tag("blues"));
    assert!(w.tagged("blues").is_empty());
    assert_eq!(w.tags("song.mp3"), strs(&["music"]));
    assert_eq!(w.tags("heavy.mp3"), strs(&["music", "rock"]));
}

#[test]
fn add_remove_tags_dest_physical_collision() {
    let mut w = World::standard();
    w.disk.write("photos/song.mp3", "collision");
    let err =
        w.refused(|fs| fs.add_remove_tags(&s("song.mp3"), &names(&["photos"]), &names(&["music"])));
    assert_eq!(err, Errno::Exist);
    assert!(w.disk.is_there("music/song.mp3"));
    assert_eq!(w.ffn("song.mp3"), "music/song.mp3");
    assert_eq!(w.tags("song.mp3"), strs(&["music"]));
}

#[test]
fn rename_file_same_name_is_eexist() {
    let mut w = World::standard();
    let err = w.refused(|fs| fs.rename_file(&s("song.mp3"), &s("song.mp3")));
    assert_eq!(err, Errno::Exist);
    assert!(w.disk.is_there("music/song.mp3"));
    assert!(w.has_file("song.mp3"));
}

#[test]
fn rename_tag_untagged_files_unaffected() {
    let mut w = World::standard();
    let old_ffn = w.ffn("readme.txt");
    let old_tags = w.tags("readme.txt");
    w.rename_tag("music", "audio");
    assert_eq!(w.ffn("readme.txt"), old_ffn);
    assert_eq!(w.tags("readme.txt"), old_tags);
    assert!(w.tags("readme.txt").is_empty());
    assert!(w.disk.is_there("readme.txt"));
}

#[test]
fn add_remove_tags_nonexistent_file() {
    let mut w = World::standard();
    let err = w.refused(|fs| fs.add_remove_tags(&s("ghost.txt"), &names(&["music"]), &names(&[])));
    assert_eq!(err, Errno::NoEnt);
}

#[test]
fn add_remove_tags_add_already_present_tag() {
    let mut w = World::standard();
    let old_ffn = w.ffn("song.mp3");
    let old_tags = w.tags("song.mp3");
    w.retag("song.mp3", &["music"], &[]);
    assert_eq!(w.ffn("song.mp3"), old_ffn);
    assert_eq!(w.tags("song.mp3"), old_tags);
    assert!(w.disk.is_there("music/song.mp3"));
}

#[test]
fn add_remove_tags_remove_nonexistent_tag() {
    let mut w = World::standard();
    let old_ffn = w.ffn("song.mp3");
    let old_tags = w.tags("song.mp3");
    w.retag("song.mp3", &[], &["nonexistent"]);
    assert_eq!(w.ffn("song.mp3"), old_ffn);
    assert_eq!(w.tags("song.mp3"), old_tags);
    assert!(w.disk.is_there("music/song.mp3"));
}

#[test]
fn add_remove_tags_simultaneous_add_and_remove_same_tag() {
    let mut w = World::standard();
    w.retag("song.mp3", &["music"], &["music"]);
    assert!(w.tags("song.mp3").is_empty());
    assert_eq!(w.ffn("song.mp3"), "song.mp3");
    assert!(w.disk.is_there("song.mp3"));
    assert!(!w.disk.is_there("music/song.mp3"));
}

#[test]
fn add_remove_tags_round_trip_root_file() {
    let mut w = World::standard();
    w.retag("readme.txt", &["photos"], &[]);
    assert_eq!(w.ffn("readme.txt"), "photos/readme.txt");
    assert!(w.disk.is_there("photos/readme.txt"));
    w.retag("readme.txt", &[], &["photos"]);
    assert_eq!(w.ffn("readme.txt"), "readme.txt");
    assert!(w.tags("readme.txt").is_empty());
    assert!(w.disk.is_there("readme.txt"));
}

#[test]
fn rename_file_then_rename_tag() {
    let mut w = World::standard();
    w.rename_file("song.mp3", "track.mp3");
    w.rename_tag("music", "audio");
    assert_eq!(w.ffn("track.mp3"), "audio/track.mp3");
    assert_eq!(w.tags("track.mp3"), strs(&["audio"]));
    assert!(w.disk.is_there("audio/track.mp3"));
    assert!(w.tagged("audio").contains(&s("track.mp3")));
    assert!(!w.has_tag("music"));
}

#[test]
fn rename_tag_then_add_remove_tags() {
    let mut w = World::standard();
    w.rename_tag("music", "audio");
    w.retag("song.mp3", &[], &["audio"]);
    assert!(w.tags("song.mp3").is_empty());
    assert_eq!(w.ffn("song.mp3"), "song.mp3");
    assert!(w.disk.is_there("song.mp3"));
}

#[test]
fn unlink_then_rename_tag() {
    let mut w = World::standard();
    w.done(|fs| fs.unlink(ALL_INODE, b"song.mp3"));
    w.rename_tag("music", "audio");
    assert!(w.has_tag("audio"));
    assert!(w.tagged("audio").contains(&s("heavy.mp3")));
    assert!(!w.tagged("audio").contains(&s("song.mp3")));
    assert_eq!(w.tagged("audio").len(), 1);
}

#[test]
fn rename_tag_twice_sequential() {
    let mut w = World::standard();
    w.rename_tag("rock", "metal");
    w.rename_tag("metal", "heavy_tag");
    assert_eq!(w.tags("heavy.mp3"), strs(&["music", "heavy_tag"]));
    assert_eq!(w.ffn("heavy.mp3"), "music/heavy_tag/heavy.mp3");
    assert!(!w.has_tag("rock"));
    assert!(!w.has_tag("metal"));
    assert!(w.has_tag("heavy_tag"));
    assert!(!w.has_tagdir(&["rock"]));
    assert!(!w.has_tagdir(&["metal"]));
    assert!(!w.has_tagdir(&["music", "rock"]));
    assert!(!w.has_tagdir(&["music", "metal"]));
    assert!(w.has_tagdir(&["music", "heavy_tag"]));
    assert!(w.disk.is_there("music/heavy_tag/heavy.mp3"));
    assert!(!w.disk.is_there("music/rock"));
    assert!(!w.disk.is_there("music/metal"));
}

#[test]
fn create_file_then_retag() {
    let mut w = World::standard();
    let music = w.dir(&["music"]);
    w.inode(|fs| fs.create(music, b"new_song.mp3"));
    w.retag("new_song.mp3", &["rock"], &["music"]);
    assert_eq!(w.tags("new_song.mp3"), strs(&["rock"]));
    assert!(w.tagged("rock").contains(&s("new_song.mp3")));
    assert!(!w.tagged("music").contains(&s("new_song.mp3")));
    assert!(w.disk.is_there("rock/new_song.mp3"));
    assert!(!w.disk.is_there("music/new_song.mp3"));
}

#[test]
fn rename_file_inode_consistency() {
    let mut w = World::standard();
    let old_ino = w.fs_mut().state.inode_table.get_or_alloc_file(&s("song.mp3"));
    w.rename_file("song.mp3", "track.mp3");

    assert!(w.state().inode_table.get(old_ino).is_none());
    assert!(w.state().inode_table.file_inode(&s("song.mp3")).is_none());
    let new_ino = w.state().inode_table.file_inode(&s("track.mp3")).unwrap();
    assert!(w.state().inode_table.get(new_ino).is_some());
    let fresh_ino = w.fs_mut().state.inode_table.get_or_alloc_file(&s("song.mp3"));
    assert_ne!(fresh_ino, old_ino);
    assert_ne!(fresh_ino, new_ino);
}

#[test]
fn rmdir_nonempty_fails() {
    let mut w = World::standard();
    let err = w.refused(|fs| fs.rmdir(ROOT_INODE, b"photos"));
    assert_eq!(err, Errno::Os(ENOTEMPTY));
    assert!(w.disk.is_there("photos"));
    assert!(w.disk.is_there("photos/pic.jpg"));
    assert!(w.has_tagdir(&["photos"]));
}

#[test]
fn external_delete_file_still_in_state() {
    let mut w = World::standard();
    w.disk.remove_file("music/song.mp3").unwrap();
    assert!(w.has_file("song.mp3"));
    assert!(w.tagged("music").contains(&s("song.mp3")));
}

#[test]
fn external_delete_file_attr_fails() {
    let mut w = World::standard();
    let ino = w.fs_mut().state.inode_table.get_or_alloc_file(&s("song.mp3"));
    w.disk.remove_file("music/song.mp3").unwrap();
    assert!(w.file_attr(ino, "song.mp3").is_err());
}

#[test]
fn external_delete_file_kind_fallback() {
    let mut w = World::standard();
    w.disk.remove_file("music/song.mp3").unwrap();
    assert_eq!(w.file_kind("song.mp3"), FileKind::RegularFile);
}

#[test]
fn external_delete_resolve_path_still_works() {
    let mut w = World::standard();
    w.disk.remove_file("music/song.mp3").unwrap();
    let result = w.fs().resolve_file_path(&s("song.mp3"));
    assert_eq!(result, Ok(path("/src/music/song.mp3")));
}

#[test]
fn external_delete_avail_tags_unchanged() {
    let mut w = World::standard();
    w.disk.remove_file("music/song.mp3").unwrap();
    let tags = w.avail(&[]);
    assert!(has(&tags, "music"));
    assert!(has(&tags, "rock"));
    assert!(has(&tags, "photos"));
}

#[test]
fn external_delete_all_files_in_tag_still_shows_tag() {
    let mut w = World::standard();
    w.disk.remove_file("photos/pic.jpg").unwrap();
    assert!(has(&w.avail(&[]), "photos"));
}

#[test]
fn external_add_file_invisible() {
    let mut w = World::standard();
    w.disk.write("music/new_track.mp3", "new data");
    assert!(!w.has_file("new_track.mp3"));
    assert!(!has(&w.matching(&["music"]), "new_track.mp3"));
}

#[test]
fn external_add_file_in_new_dir_invisible() {
    let mut w = World::standard();
    w.disk.create_dir_all("jazz").unwrap();
    w.disk.write("jazz/tune.mp3", "jazz data");
    assert!(!w.has_file("tune.mp3"));
    assert!(!has(&w.avail(&[]), "jazz"));
}

#[test]
fn external_add_untagged_file_invisible() {
    let mut w = World::standard();
    w.disk.write("newfile.txt", "new data");
    assert!(!has(&w.untagged(), "newfile.txt"));
}

#[test]
fn external_rename_old_name_still_in_state() {
    let mut w = World::standard();
    w.disk.rename("music/song.mp3", "music/track.mp3").unwrap();
    assert!(w.has_file("song.mp3"));
    assert_eq!(w.ffn("song.mp3"), "music/song.mp3");
}

#[test]
fn external_rename_old_name_file_attr_fails() {
    let mut w = World::standard();
    let ino = w.fs_mut().state.inode_table.get_or_alloc_file(&s("song.mp3"));
    w.disk.rename("music/song.mp3", "music/track.mp3").unwrap();
    assert!(w.file_attr(ino, "song.mp3").is_err());
}

#[test]
fn external_rename_new_name_invisible() {
    let mut w = World::standard();
    w.disk.rename("music/song.mp3", "music/track.mp3").unwrap();
    let matching = w.matching(&["music"]);
    assert!(has(&matching, "song.mp3"));
    assert!(!has(&matching, "track.mp3"));
}

#[test]
fn external_rename_by_tags_stale() {
    let mut w = World::standard();
    w.disk.rename("music/song.mp3", "music/track.mp3").unwrap();
    assert!(w.tagged("music").contains(&s("song.mp3")));
    assert!(!w.tagged("music").contains(&s("track.mp3")));
}

#[test]
fn external_modify_file_attr_reflects_new_size() {
    let mut w = World::standard();
    let ino = w.fs_mut().state.inode_table.get_or_alloc_file(&s("song.mp3"));
    let new_content = "much longer song data content here";
    w.disk.write("music/song.mp3", new_content);
    let attr = w.file_attr(ino, "song.mp3").unwrap();
    assert_eq!(attr.size, new_content.len() as u64);
    assert_eq!(attr.ino, ino);
}

#[test]
fn external_modify_state_unchanged() {
    let mut w = World::standard();
    w.disk.write("music/song.mp3", "different content");
    assert_eq!(w.ffn("song.mp3"), "music/song.mp3");
    assert_eq!(w.tags("song.mp3"), strs(&["music"]));
}

#[test]
fn external_modify_file_kind_unchanged() {
    let mut w = World::standard();
    w.disk.write("music/song.mp3", "different content");
    assert_eq!(w.file_kind("song.mp3"), FileKind::RegularFile);
}

#[test]
fn external_delete_dir_tags_still_available() {
    let mut w = World::standard();
    w.disk.remove_dir_all("music");
    let tags = w.avail(&[]);
    assert!(has(&tags, "music"));
    assert!(has(&tags, "rock"));
}

#[test]
fn external_delete_dir_files_still_in_state() {
    let mut w = World::standard();
    w.disk.remove_dir_all("photos");
    assert!(w.has_file("pic.jpg"));
    assert_eq!(w.ffn("pic.jpg"), "photos/pic.jpg");
}

#[test]
fn external_delete_dir_file_attr_fails() {
    let mut w = World::standard();
    let ino = w.fs_mut().state.inode_table.get_or_alloc_file(&s("pic.jpg"));
    w.disk.remove_dir_all("photos");
    assert!(w.file_attr(ino, "pic.jpg").is_err());
}

#[test]
fn external_add_dir_invisible() {
    let mut w = World::standard();
    w.disk.create_dir_all("jazz").unwrap();
    assert!(!has(&w.avail(&[]), "jazz"));
}

#[test]
fn external_add_dir_with_files_invisible() {
    let mut w = World::standard();
    w.disk.create_dir_all("jazz").unwrap();
    w.disk.write("jazz/smooth.mp3", "smooth data");
    assert!(!has(&w.avail(&[]), "jazz"));
    assert!(!w.has_file("smooth.mp3"));
}

#[test]
fn external_add_nested_dir_invisible() {
    let mut w = World::standard();
    w.disk.create_dir_all("music/jazz").unwrap();
    assert!(!has(&w.avail(&["music"]), "jazz"));
}

#[test]
fn external_delete_then_fuse_unlink() {
    let mut w = World::standard();
    w.disk.remove_file("music/song.mp3").unwrap();
    assert!(w.has_file("song.mp3"));
    let err = w.refused(|fs| fs.unlink(ALL_INODE, b"song.mp3"));
    assert_eq!(err, Errno::Os(ENOENT));
    assert!(w.has_file("song.mp3"));
}

#[test]
fn external_replace_file_in_place() {
    let mut w = World::standard();
    let ino = w.fs_mut().state.inode_table.get_or_alloc_file(&s("song.mp3"));
    let new_content = "brand new song data with more bytes";
    w.disk.remove_file("music/song.mp3").unwrap();
    w.disk.write("music/song.mp3", new_content);
    assert_eq!(w.file_attr(ino, "song.mp3").unwrap().size, new_content.len() as u64);
}

#[test]
fn external_delete_and_recreate_dir() {
    let mut w = World::standard();
    let ino = w.fs_mut().state.inode_table.get_or_alloc_file(&s("pic.jpg"));
    w.disk.remove_dir_all("photos");
    w.disk.create_dir_all("photos").unwrap();
    assert!(w.has_file("pic.jpg"));
    assert!(w.file_attr(ino, "pic.jpg").is_err());
}

/// The names that a directory shows, without the dots.
fn shown(w: &mut World, ino: u64) -> Vec<String> {
    let entries = w.fs_mut().list_dir(ino).unwrap();
    entries.iter().skip(2).map(|e| e.name.clone()).collect()
}

fn found(r: Result<(u64, Target), Errno>) -> u64 {
    match r {
        Ok((ino, _)) => ino,
        Err(e) => panic!("not found: {:?}", e),
    }
}

#[test]
fn lookup_special_directories() {
    let mut w = World::standard();
    assert_eq!(found(w.fs_mut().lookup(ROOT_INODE, b"_all")), ALL_INODE);
    assert_eq!(found(w.fs_mut().lookup(ROOT_INODE, b"_untagged")), UNTAGGED_INODE);
    let music = w.dir(&["music"]);
    assert_eq!(w.fs_mut().lookup(music, b"_all").err(), Some(Errno::NoEnt));
}

#[test]
fn lookup_files_and_tags() {
    let mut w = World::standard();
    let music = w.dir(&["music"]);
    match w.fs_mut().lookup(music, b"song.mp3") {
        Ok((ino, Target::File(p))) => {
            assert!(ino >= 4);
            assert_eq!(p, path("/src/music/song.mp3"));
        }
        _ => panic!("the file is in its tag"),
    }
    assert_eq!(w.fs_mut().lookup(music, b"pic.jpg").err(), Some(Errno::NoEnt));
    assert_eq!(w.fs_mut().lookup(music, b"photos").err(), Some(Errno::NoEnt));
    assert_eq!(w.fs_mut().lookup(ROOT_INODE, b"song.mp3").err(), Some(Errno::NoEnt));
    let song = found(w.fs_mut().lookup(music, b"song.mp3"));
    assert_eq!(found(w.fs_mut().lookup(ALL_INODE, b"song.mp3")), song);
    assert_eq!(w.fs_mut().lookup(UNTAGGED_INODE, b"song.mp3").err(), Some(Errno::NoEnt));
    found(w.fs_mut().lookup(UNTAGGED_INODE, b"readme.txt"));
    assert_eq!(w.fs_mut().lookup(song, b"x").err(), Some(Errno::NoEnt));
    assert_eq!(w.fs_mut().lookup(9999, b"x").err(), Some(Errno::NoEnt));
}

#[test]
fn lookup_prefers_a_file_to_a_tag() {
    let mut d = Disk::new();
    d.create_dir_all("rock/live").unwrap();
    d.create_dir_all("pop/rock").unwrap();
    d.write("rock/live/x", "x");
    d.write("pop/rock/live", "a file");
    let mut w = World::over(d);
    let rock = w.dir(&["rock"]);
    assert!(has(&w.avail(&["rock"]), "live"));
    match w.fs_mut().lookup(rock, b"live") {
        Ok((_, Target::File(p))) => assert_eq!(p, path("/src/pop/rock/live")),
        _ => panic!("the file comes first"),
    }
    let entries = w.fs_mut().list_dir(rock).unwrap();
    let live: Vec<bool> = entries.iter().filter(|e| e.name == "live").map(|e| e.is_dir).collect();
    assert_eq!(live, vec![true, false]);
    let page = w.fs_mut().readdir(rock, 0).unwrap();
    let file = page.iter().find(|e| e.entry.name == "live" && !e.entry.is_dir).unwrap();
    match w.fs().getattr(file.entry.inode) {
        Ok(Target::File(p)) => assert_eq!(p, path("/src/pop/rock/live")),
        _ => panic!("the entry leads to the file"),
    }
}

#[test]
fn lookup_is_lasting_and_order_of_tags_is_irrelevant() {
    let mut w = World::standard();
    let one = w.dir(&["music", "rock"]);
    let other = w.dir(&["rock", "music"]);
    assert_eq!(one, other);
    assert_eq!(w.dir(&["music", "rock"]), one);
}

#[test]
fn names_that_are_not_utf8() {
    let mut w = World::standard();
    w.inode(|fs| fs.create(ROOT_INODE, &[b'a', 0xff]));
    assert!(w.has_file("a\u{fffd}"));
    found(w.fs_mut().lookup(ALL_INODE, &[b'a', 0xfe]));
}

#[test]
fn listing_of_the_root() {
    let mut w = World::standard();
    let entries = w.fs_mut().list_dir(ROOT_INODE).unwrap();
    let all: Vec<&str> = entries.iter().map(|e| e.name.as_str()).collect();
    assert_eq!(all, vec![".", "..", "_all", "_untagged", "music", "photos", "rock"]);
    assert!(entries.iter().all(|e| e.is_dir));
    assert_eq!(entries[0].inode, ROOT_INODE);
    assert_eq!(entries[1].inode, ROOT_INODE);
    assert_eq!(entries[2].inode, ALL_INODE);
    assert_eq!(entries[3].inode, UNTAGGED_INODE);
    let music = entries[4].inode;
    assert_eq!(found(w.fs_mut().lookup(ROOT_INODE, b"music")), music);
}

#[test]
fn listing_of_the_documented_tree() {
    let mut d = Disk::new();
    for dir in ["music/rock", "music/jazz", "photos/rock"] {
        d.create_dir_all(dir).unwrap();
    }
    d.write("music/rock/thunder.mp3", "");
    d.write("music/jazz/smooth.mp3", "");
    d.write("photos/rock/concert.jpg", "");
    d.write("photos/beach.jpg", "");
    d.write("readme.txt", "");
    let mut w = World::over(d);
    assert_eq!(
        shown(&mut w, ALL_INODE),
        strs(&["thunder.mp3", "smooth.mp3", "concert.jpg", "beach.jpg", "readme.txt"])
    );
    assert_eq!(shown(&mut w, UNTAGGED_INODE), strs(&["readme.txt"]));
    let expected: [(&[&str], &[&str]); 7] = [
        (&["jazz"], &["music", "smooth.mp3"]),
        (&["music"], &["jazz", "rock", "smooth.mp3", "thunder.mp3"]),
        (&["music", "jazz"], &["smooth.mp3"]),
        (&["music", "rock"], &["thunder.mp3"]),
        (&["photos"], &["rock", "beach.jpg", "concert.jpg"]),
        (&["rock"], &["music", "photos", "concert.jpg", "thunder.mp3"]),
        (&["rock", "photos"], &["concert.jpg"]),
    ];
    for (tags, list) in expected {
        let ino = w.dir(tags);
        let names: Vec<String> = list.iter().map(|t| t.to_string()).collect();
        assert_eq!(shown(&mut w, ino), names);
    }
}

#[test]
fn listing_is_for_directories() {
    let mut w = World::standard();
    let song = found(w.fs_mut().lookup(ALL_INODE, b"song.mp3"));
    assert_eq!(w.fs_mut().list_dir(song), Err(Errno::NotDir));
    assert_eq!(w.fs_mut().readdir(9999, 0), Err(Errno::NotDir));
    assert!(w.fs().can_list(ROOT_INODE));
    assert!(w.fs().can_list(song));
}

#[test]
fn readdir_counts_and_skips() {
    let mut w = World::standard();
    let all = w.fs_mut().readdir(ROOT_INODE, 0).unwrap();
    let offsets: Vec<i64> = all.iter().map(|e| e.offset).collect();
    assert_eq!(offsets, vec![1, 2, 3, 4, 5, 6, 7]);
    let rest = w.fs_mut().readdir(ROOT_INODE, 5).unwrap();
    assert_eq!(rest.len(), 2);
    assert_eq!(rest[0].offset, 6);
    assert_eq!(rest[0].entry.name, "photos");
    assert_eq!(w.fs_mut().readdir(ROOT_INODE, -3).unwrap().len(), 7);
    assert!(w.fs_mut().readdir(ROOT_INODE, 100).unwrap().is_empty());
}

#[test]
fn readdirplus_leaves_out_what_has_no_attributes() {
    let mut w = World::standard();
    w.disk.remove_file("music/rock/heavy.mp3").unwrap();
    let entries = w.fs_mut().list_dir(ALL_INODE).unwrap();
    let now = Time { sec: 7, nsec: 9 };
    let attrs: Vec<Option<Attr>> = entries
        .iter()
        .map(|e| {
            if e.is_dir {
                Some(dir_attr(e.inode, 1, 2, now))
            } else {
                w.file_attr(e.inode, &e.name).ok()
            }
        })
        .collect();
    let page = readdirplus(&entries, &attrs, 0);
    let listed: Vec<(&str, i64)> = page.iter().map(|e| (e.name.as_str(), e.offset)).collect();
    assert_eq!(
        listed,
        vec![(".", 1), ("..", 2), ("pic.jpg", 3), ("readme.txt", 4), ("song.mp3", 5)]
    );
    assert_eq!(page[0].attr.kind, FileKind::Directory);
    assert_eq!(page[2].attr.size, 8);
    let rest = readdirplus(&entries, &attrs, 3);
    assert_eq!(rest.len(), 2);
    assert_eq!(rest[0].name, "readme.txt");
    assert_eq!(rest[0].offset, 4);
}

#[test]
fn moving_between_tags() {
    let mut w = World::standard();
    let rock = w.dir(&["rock"]);
    let photos = w.dir(&["photos"]);
    w.done(|fs| fs.rename(rock, b"heavy.mp3", photos, b"heavy.mp3"));
    assert_eq!(w.tags("heavy.mp3"), strs(&["music", "photos"]));
    assert_eq!(w.disk.read("music/photos/heavy.mp3"), "heavy data");
}

#[test]
fn moving_into_a_tag_and_back_out() {
    let mut w = World::standard();
    let rock = w.dir(&["rock"]);
    w.done(|fs| fs.rename(ALL_INODE, b"readme.txt", rock, b"readme.txt"));
    assert_eq!(w.tags("readme.txt"), strs(&["rock"]));
    assert_eq!(w.disk.read("rock/readme.txt"), "readme data");
    w.done(|fs| fs.rename(rock, b"readme.txt", ALL_INODE, b"readme.txt"));
    assert!(w.tags("readme.txt").is_empty());
    assert_eq!(w.disk.read("readme.txt"), "readme data");
}

#[test]
fn moving_into_a_tag_keeps_the_other_tags() {
    let mut w = World::standard();
    let photos = w.dir(&["photos"]);
    w.done(|fs| fs.rename(ALL_INODE, b"heavy.mp3", photos, b"heavy.mp3"));
    assert_eq!(w.tags("heavy.mp3"), strs(&["music", "photos", "rock"]));
    assert_eq!(w.disk.read("music/photos/rock/heavy.mp3"), "heavy data");
    w.done(|fs| fs.rename(photos, b"heavy.mp3", ALL_INODE, b"heavy.mp3"));
    assert_eq!(w.tags("heavy.mp3"), strs(&["music", "rock"]));
    assert_eq!(w.disk.read("music/rock/heavy.mp3"), "heavy data");
    w.agrees();
}

#[test]
fn moving_into_a_tag_that_a_file_has_changes_nothing() {
    let mut w = World::standard();
    let rock = w.dir(&["rock"]);
    w.done(|fs| fs.rename(ALL_INODE, b"heavy.mp3", rock, b"heavy.mp3"));
    assert_eq!(w.tags("heavy.mp3"), strs(&["music", "rock"]));
    assert_eq!(w.ffn("heavy.mp3"), "music/rock/heavy.mp3");
}

#[test]
fn moving_from_all_to_no_tags() {
    for to in [UNTAGGED_INODE, ROOT_INODE] {
        let mut w = World::standard();
        w.done(|fs| fs.rename(ALL_INODE, b"heavy.mp3", to, b"heavy.mp3"));
        assert!(w.tags("heavy.mp3").is_empty());
        assert_eq!(w.disk.read("heavy.mp3"), "heavy data");
    }
}

#[test]
fn moving_out_of_a_tag() {
    for to in [ALL_INODE, UNTAGGED_INODE, ROOT_INODE] {
        let mut w = World::standard();
        let rock = w.dir(&["rock"]);
        w.done(|fs| fs.rename(rock, b"heavy.mp3", to, b"heavy.mp3"));
        assert_eq!(w.tags("heavy.mp3"), strs(&["music"]));
        assert_eq!(w.disk.read("music/heavy.mp3"), "heavy data");
    }
}

#[test]
fn moving_within_all_changes_nothing() {
    let mut w = World::standard();
    w.done(|fs| fs.rename(ALL_INODE, b"heavy.mp3", ALL_INODE, b"heavy.mp3"));
    assert_eq!(w.tags("heavy.mp3"), strs(&["music", "rock"]));
    w.done(|fs| fs.rename(UNTAGGED_INODE, b"readme.txt", ALL_INODE, b"readme.txt"));
    assert!(w.tags("readme.txt").is_empty());
}

#[test]
fn moving_with_a_new_name() {
    let mut w = World::standard();
    let music = w.dir(&["music"]);
    let photos = w.dir(&["photos"]);
    w.done(|fs| fs.rename(music, b"song.mp3", photos, b"track.mp3"));
    assert!(!w.has_file("song.mp3"));
    assert_eq!(w.ffn("track.mp3"), "photos/track.mp3");
    assert_eq!(w.disk.read("photos/track.mp3"), "song data");
    w.done(|fs| fs.rename(photos, b"track.mp3", photos, b"tune.mp3"));
    assert_eq!(w.ffn("tune.mp3"), "photos/tune.mp3");
}

#[test]
fn moving_a_tag_renames_it() {
    let mut w = World::standard();
    let photos = w.dir(&["photos"]);
    w.done(|fs| fs.rename(ROOT_INODE, b"rock", photos, b"metal"));
    assert_eq!(w.tags("heavy.mp3"), strs(&["metal", "music"]));
    assert_eq!(w.disk.read("music/metal/heavy.mp3"), "heavy data");
    let err = w.refused(|fs| fs.rename(ROOT_INODE, b"metal", ROOT_INODE, b"music"));
    assert_eq!(err, Errno::Exist);
    w.done(|fs| fs.rename(ROOT_INODE, b"metal", ROOT_INODE, b"rock"));
    assert_eq!(w.tags("heavy.mp3"), strs(&["music", "rock"]));
    assert_eq!(w.ffn("heavy.mp3"), "music/rock/heavy.mp3");
}

#[test]
fn moving_prefers_a_file_to_a_tag() {
    let mut w = World::standard();
    w.inode(|fs| fs.create(ROOT_INODE, b"rock"));
    w.done(|fs| fs.rename(UNTAGGED_INODE, b"rock", UNTAGGED_INODE, b"stone"));
    assert!(w.has_file("stone"));
    assert!(w.has_tag("rock"));
}

#[test]
fn moving_what_is_not_there() {
    let mut w = World::standard();
    let song = found(w.fs_mut().lookup(ALL_INODE, b"song.mp3"));
    for (from, to) in [(9999, ROOT_INODE), (ALL_INODE, 9999), (song, ALL_INODE), (ALL_INODE, song)] {
        let err = w.refused(|fs| fs.rename(from, b"song.mp3", to, b"song.mp3"));
        assert_eq!(err, Errno::NoEnt);
    }
    let err = w.refused(|fs| fs.rename(ALL_INODE, b"nope", ALL_INODE, b"x"));
    assert_eq!(err, Errno::NoEnt);
    let err = w.refused(|fs| fs.rename(ALL_INODE, b"song.mp3", ALL_INODE, b"pic.jpg"));
    assert_eq!(err, Errno::Exist);
}

#[test]
fn renaming_onto_a_file_that_is_not_known() {
    let mut w = World::standard();
    w.disk.write("music/track.mp3", "not scanned");
    let err = w.refused(|fs| fs.rename_file(&s("song.mp3"), &s("track.mp3")));
    assert_eq!(err, Errno::Exist);
    assert_eq!(w.disk.read("music/track.mp3"), "not scanned");
    assert_eq!(w.ffn("song.mp3"), "music/song.mp3");
}

#[test]
fn nothing_is_made_in_special_directories() {
    let mut w = World::standard();
    for dir in [ALL_INODE, UNTAGGED_INODE] {
        assert_eq!(w.refused(|fs| fs.create(dir, b"new.txt")), Errno::Perm);
        assert_eq!(w.refused(|fs| fs.create(dir, b"song.mp3")), Errno::Exist);
        assert_eq!(w.refused(|fs| fs.mkdir(dir, b"new")), Errno::Perm);
    }
    assert!(!w.has_file("new.txt"));
    assert!(!w.has_tag("new"));
    assert_eq!(w.refused(|fs| fs.rmdir(ROOT_INODE, b"_all")), Errno::Perm);
    assert_eq!(w.refused(|fs| fs.rmdir(ROOT_INODE, b"_untagged")), Errno::Perm);
}

#[test]
fn making_things_where_they_cannot_be() {
    let mut w = World::standard();
    let song = found(w.fs_mut().lookup(ALL_INODE, b"song.mp3"));
    for dir in [song, 9999] {
        assert_eq!(w.refused(|fs| fs.create(dir, b"new.txt")), Errno::NoEnt);
        assert_eq!(w.refused(|fs| fs.mkdir(dir, b"new")), Errno::NoEnt);
        assert_eq!(w.refused(|fs| fs.rmdir(dir, b"music")), Errno::NoEnt);
    }
    assert_eq!(w.refused(|fs| fs.rmdir(ALL_INODE, b"music")), Errno::NoEnt);
    assert_eq!(w.refused(|fs| fs.create(ROOT_INODE, b"song.mp3")), Errno::Exist);
    assert_eq!(w.refused(|fs| fs.unlink(ALL_INODE, b"nope")), Errno::NoEnt);
    w.disk.write("music/stray.mp3", "not scanned");
    let music = w.dir(&["music"]);
    assert_eq!(w.refused(|fs| fs.create(music, b"stray.mp3")), Errno::Os(EEXIST));
    assert!(!w.has_file("stray.mp3"));
}

#[test]
fn making_a_tag_twice_gives_the_same_inode() {
    let mut w = World::standard();
    let one = w.inode(|fs| fs.mkdir(ROOT_INODE, b"jazz"));
    let two = w.inode(|fs| fs.mkdir(ROOT_INODE, b"jazz"));
    assert_eq!(one, two);
    assert_eq!(w.dir(&["jazz"]), one);
}

#[test]
fn making_a_file_gives_its_inode() {
    let mut w = World::standard();
    let dir = w.inode(|fs| fs.mkdir(ROOT_INODE, b"jazz"));
    let ino = w.inode(|fs| fs.create(dir, b"tune.mp3"));
    assert_eq!(found(w.fs_mut().lookup(dir, b"tune.mp3")), ino);
    assert_eq!(w.ffn("tune.mp3"), "jazz/tune.mp3");
    assert_eq!(w.disk.read("jazz/tune.mp3"), "");
}

#[test]
fn making_a_file_makes_its_directory() {
    let mut w = World::standard();
    let dir = w.fs_mut().state.inode_table.get_or_alloc_dir(&names(&["photos", "beach"]));
    w.inode(|fs| fs.create(dir, b"sand.jpg"));
    assert_eq!(w.ffn("sand.jpg"), "beach/photos/sand.jpg");
    assert!(w.disk.is_dir("beach/photos"));
}

#[test]
fn removing_a_tag_without_its_directory() {
    let mut w = World::standard();
    w.disk.remove_dir_all("photos");
    w.done(|fs| fs.rmdir(ROOT_INODE, b"photos"));
    assert!(!w.has_tagdir(&["photos"]));
    w.done(|fs| fs.rmdir(ROOT_INODE, b"never"));
}

#[test]
fn removing_a_tag_that_leads_on_is_refused() {
    let mut d = Disk::new();
    d.create_dir_all("music/rock").unwrap();
    let mut w = World::over(d);
    assert_eq!(w.avail(&[]), strs(&["music", "rock"]));
    assert_eq!(w.refused(|fs| fs.rmdir(ROOT_INODE, b"rock")), Errno::NotEmpty);
    assert_eq!(w.avail(&[]), strs(&["music", "rock"]));
    assert!(w.disk.is_dir("music/rock"));
    let music = w.dir(&["music"]);
    w.done(|fs| fs.rmdir(music, b"rock"));
    assert!(w.avail(&["music"]).is_empty());
    assert_eq!(w.avail(&[]), strs(&["music"]));
    assert!(!w.disk.is_there("music/rock"));
    w.agrees();
}

#[test]
fn removing_a_tag_half_way_notes_what_is_gone() {
    let mut d = Disk::new();
    d.create_dir_all("a/b").unwrap();
    d.create_dir_all("b/a").unwrap();
    let mut w = World::over(d);
    w.disk.write("b/a/new.txt", "not known");
    let a = w.dir(&["a"]);
    assert_eq!(w.refused(|fs| fs.rmdir(a, b"b")), Errno::Os(ENOTEMPTY));
    assert!(!w.disk.is_there("a/b"));
    let dirs = w.state().tagdirs.get(&names(&["a", "b"])).unwrap();
    assert_eq!(dirs.len(), 1);
    assert_eq!(*dirs.at(0), path("b/a"));
    w.agrees();
    w.disk.remove_file("b/a/new.txt").unwrap();
    w.done(|fs| fs.rmdir(a, b"b"));
    assert!(w.avail(&["a"]).is_empty());
}

#[test]
fn renaming_a_tag_that_a_path_spells_twice() {
    let mut d = Disk::new();
    d.create_dir_all("rock/rock").unwrap();
    d.write("rock/rock/file.txt", "file data");
    d.write("rock/rock/rock", "of the same name");
    let mut w = World::over(d);
    assert_eq!(w.tags("file.txt"), strs(&["rock"]));
    w.rename_tag("rock", "metal");
    assert_eq!(w.ffn("file.txt"), "metal/metal/file.txt");
    assert_eq!(w.disk.read("metal/metal/file.txt"), "file data");
    assert_eq!(w.ffn("rock"), "metal/metal/rock");
    assert_eq!(w.disk.read("metal/metal/rock"), "of the same name");
    assert_eq!(w.matching(&["metal"]), strs(&["file.txt", "rock"]));
    assert!(!w.has_tag("rock"));
    w.agrees();
}

#[test]
fn renaming_a_tag_to_a_place_that_is_taken() {
    let mut w = World::multi_location();
    w.disk.create_dir_all("metal").unwrap();
    let before = w.disk.items.clone();
    assert_eq!(w.refused(|fs| fs.rename_tag(&s("rock"), &s("metal"))), Errno::Exist);
    assert_eq!(w.disk.items, before);
    assert_eq!(w.ffn("a.txt"), "rock/a.txt");
    assert_eq!(w.ffn("b.txt"), "pop/rock/b.txt");
    w.agrees();
}

#[test]
fn renaming_a_tag_half_way_notes_what_was_moved() {
    let mut w = World::multi_location();
    let mut step = w.fs.take().unwrap().rename_tag(&s("rock"), &s("metal"));
    loop {
        match step {
            Step::Ask(op, pending) => {
                let reply = match &op {
                    DiskOp::Rename(p, _) if place_of(p) == "rock" => Err(Some(13)),
                    _ => w.disk.perform(&op),
                };
                step = pending.resume(reply);
            }
            Step::End(fs, result) => {
                assert_eq!(result.err(), Some(Errno::Os(13)));
                w.fs = Some(fs);
                break;
            }
        }
    }
    w.agrees();
    assert_eq!(w.ffn("a.txt"), "rock/a.txt");
    assert_eq!(w.tags("a.txt"), strs(&["rock"]));
    assert_eq!(w.ffn("b.txt"), "pop/metal/b.txt");
    assert_eq!(w.tags("b.txt"), strs(&["metal", "pop"]));
    assert_eq!(w.matching(&["metal"]), strs(&["b.txt"]));
    assert_eq!(w.matching(&["rock"]), strs(&["a.txt"]));
    assert_eq!(w.avail(&[]), strs(&["metal", "pop", "rock"]));
    assert_eq!(w.avail(&["pop"]), strs(&["metal"]));
}

fn raw_dir(name: &[u8], inside: Vec<Found>) -> Found {
    Found { name: name.to_vec(), target: Some(Kind::Dir), real_dir: true, inside }
}

fn raw_file(name: &[u8]) -> Found {
    Found { name: name.to_vec(), target: Some(Kind::File), real_dir: false, inside: Vec::new() }
}

#[test]
fn renaming_a_tag_keeps_names_that_are_not_utf8() {
    let top = vec![raw_dir(b"caf\xe9", vec![raw_dir(b"rock", vec![raw_file(b"a\xff")])])];
    let mut step = TagFs::new(path("/src"), scan_tree(&top, false)).rename_tag(&s("rock"), &s("metal"));
    let mut asked = Vec::new();
    let fs = loop {
        match step {
            Step::Ask(op, pending) => {
                let reply = Ok(asked.len() != 1);
                asked.push(op);
                step = pending.resume(reply);
            }
            Step::End(fs, result) => {
                assert!(result.is_ok());
                break fs;
            }
        }
    };
    assert_eq!(
        asked,
        vec![
            DiskOp::Exists(FsPath::from_bytes(b"/src/caf\xe9/rock")),
            DiskOp::Exists(FsPath::from_bytes(b"/src/caf\xe9/metal")),
            DiskOp::Rename(
                FsPath::from_bytes(b"/src/caf\xe9/rock"),
                FsPath::from_bytes(b"/src/caf\xe9/metal"),
            ),
        ]
    );
    let file = fs.state.files.get(&s("a\u{fffd}")).unwrap();
    assert_eq!(file.ffn, FsPath::from_bytes(b"caf\xe9/metal/a\xff"));
    assert_eq!(list(&file.tags), strs(&["caf\u{fffd}", "metal"]));
}

#[test]
fn renaming_two_directories_to_one_place_is_refused() {
    let top = vec![raw_dir(b"\xfe", Vec::new()), raw_dir(b"\xff", Vec::new())];
    let fs = TagFs::new(path("/src"), scan_tree(&top, false));
    match fs.rename_tag(&s("\u{fffd}"), &s("metal")) {
        Step::End(fs, result) => {
            assert_eq!(result.err(), Some(Errno::Exist));
            assert!(fs.state.by_tags.contains_key(&s("\u{fffd}")));
        }
        Step::Ask(_, _) => panic!("both would go to one place"),
    }
}

#[test]
fn operations_that_fail_without_a_code() {
    let w = World::standard();
    let step = w.fs.unwrap().unlink(ALL_INODE, b"song.mp3");
    match step {
        Step::Ask(DiskOp::RemoveFile(p), pending) => {
            assert_eq!(p, path("/src/music/song.mp3"));
            match pending.resume(Err(None)) {
                Step::End(fs, Err(e)) => {
                    assert_eq!(e, Errno::Io);
                    assert!(fs.state.files.contains_key(&s("song.mp3")));
                }
                _ => panic!("it failed"),
            }
        }
        _ => panic!("the file is deleted first"),
    }
}

#[test]
fn renaming_a_tag_asks_deep_directories_first() {
    let mut d = Disk::new();
    d.create_dir_all("rock").unwrap();
    d.create_dir_all("a/b/rock").unwrap();
    d.create_dir_all("pop/rock").unwrap();
    let w = World::over(d);
    let plan = w.state().rename_plan("rock", "metal");
    let texts: Vec<(String, String)> = plan
        .iter()
        .map(|(p, q)| {
            (String::from_utf8(p.to_bytes()).unwrap(), String::from_utf8(q.to_bytes()).unwrap())
        })
        .collect();
    assert_eq!(
        texts,
        vec![
            (s("a/b/rock"), s("a/b/metal")),
            (s("pop/rock"), s("pop/metal")),
            (s("rock"), s("metal")),
        ]
    );
}

#[test]
fn renaming_a_tag_that_cannot_be_moved() {
    let w = World::standard();
    let mut step = w.fs.unwrap().rename_tag(&s("rock"), &s("metal"));
    let mut asked = Vec::new();
    loop {
        match step {
            Step::Ask(op, pending) => {
                let reply = match &op {
                    DiskOp::Exists(p) => Ok(place_of(p) == "music/rock"),
                    _ => Err(Some(13)),
                };
                asked.push(op);
                step = pending.resume(reply);
            }
            Step::End(fs, result) => {
                assert_eq!(result.err(), Some(Errno::Os(13)));
                assert!(fs.state.by_tags.contains_key(&s("rock")));
                break;
            }
        }
    }
    assert_eq!(
        asked,
        vec![
            DiskOp::Exists(path("/src/music/rock")),
            DiskOp::Exists(path("/src/music/metal")),
            DiskOp::Rename(path("/src/music/rock"), path("/src/music/metal")),
        ]
    );
}

#[test]
fn renaming_a_tag_and_back_leaves_everything_in_place() {
    let mut w = World::standard();
    let before = w.disk.items.clone();
    w.rename_tag("music", "audio");
    w.rename_tag("audio", "music");
    assert_eq!(w.disk.items, before);
    assert_eq!(w.ffn("heavy.mp3"), "music/rock/heavy.mp3");
    assert_eq!(w.matching(&["music"]), strs(&["heavy.mp3", "song.mp3"]));
}

#[test]
fn a_new_scan_finds_the_same_tags() {
    let mut w = World::standard();
    w.retag("song.mp3", &["live", "jazz"], &["music"]);
    w.rename_tag("rock", "metal");
    w.rename_file("pic.jpg", "photo.jpg");
    let scan = scan_tree(&w.disk.listing(""), false);
    assert_eq!(scan.files.len(), w.state().files.len());
    for i in 0..scan.files.len() {
        let known = w.file(scan.files.key_at(i));
        assert_eq!(scan.files.value_at(i).ffn, known.ffn);
        assert_eq!(scan.files.value_at(i).tags, known.tags);
    }
}

#[test]
fn targets_of_inodes() {
    let mut w = World::standard();
    let song = found(w.fs_mut().lookup(ALL_INODE, b"song.mp3"));
    let fs = w.fs();
    let full = path("/src/music/song.mp3");
    assert!(matches!(fs.getattr(ROOT_INODE), Ok(Target::Dir)));
    assert!(matches!(fs.getattr(ALL_INODE), Ok(Target::Dir)));
    match fs.getattr(song) {
        Ok(Target::File(p)) => assert_eq!(p, full),
        _ => panic!("a file"),
    }
    assert_eq!(fs.getattr(9999).err(), Some(Errno::NoEnt));
    assert_eq!(fs.open(song), Ok(path("/src/music/song.mp3")));
    assert_eq!(fs.open(ROOT_INODE), Err(Errno::IsDir));
    assert_eq!(fs.open(9999), Err(Errno::NoEnt));
    assert_eq!(fs.readlink(song), Ok(path("/src/music/song.mp3")));
    assert_eq!(fs.readlink(ROOT_INODE), Err(Errno::Inval));
    assert_eq!(fs.readlink(9999), Err(Errno::Inval));
    assert_eq!(fs.access(song), Ok(()));
    assert_eq!(fs.access(9999), Err(Errno::NoEnt));
    assert_eq!(fs.opendir(ROOT_INODE), Ok(()));
    assert_eq!(fs.opendir(UNTAGGED_INODE), Ok(()));
    assert_eq!(fs.opendir(song), Err(Errno::NotDir));
    assert_eq!(fs.resolve_file_path(&s("nope")), Err(Errno::NoEnt));
}

#[test]
fn a_forgotten_file_has_no_attributes() {
    let mut w = World::standard();
    let song = found(w.fs_mut().lookup(ALL_INODE, b"song.mp3"));
    w.fs_mut().state.files.remove(&s("song.mp3"));
    assert_eq!(w.fs().getattr(song).err(), Some(Errno::NoEnt));
    assert_eq!(w.fs().open(song), Err(Errno::NoEnt));
}

#[test]
fn links_are_shown_as_links() {
    let mut w = World::standard();
    w.disk.items.insert(s("music/song.mp3"), Item::Link);
    assert_eq!(w.file_kind("song.mp3"), FileKind::Symlink);
    assert_eq!(w.file_attr(5, "song.mp3").unwrap().kind, FileKind::Symlink);
    assert_eq!(w.file_kind("nope"), FileKind::RegularFile);
}
