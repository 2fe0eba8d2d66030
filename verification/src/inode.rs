//! Inode numbers, which are given out as paths are looked up.
use std::collections::HashMap;

use vstd::prelude::*;

use crate::names::{Name, NameMap, NameSet, TagMap};
use crate::sorted_map::SortedMap;
use crate::sorted_set::SortedSet;

verus! {

broadcast use vstd::std_specs::hash::group_hash_axioms;

/// The inode of the root directory.
pub const ROOT_INODE: u64 = 1;

/// The inode of `_all`.
pub const ALL_INODE: u64 = 2;

/// The inode of `_untagged`.
pub const UNTAGGED_INODE: u64 = 3;

/// The first inode that is given out.
pub const FIRST_INODE: u64 = 4;

/// A directory that is not a set of tags.
#[derive(Clone, Copy, PartialEq, Eq, Debug, Structural)]
pub enum SpecialKind {
    /// Every file.
    All,
    /// The files without tags.
    Untagged,
}

/// What an inode stands for.
#[derive(PartialEq, Eq, Debug)]
pub enum InodeEntry {
    /// The directory of a set of tags.
    Dir(NameSet),
    /// A flat directory, `_all` or `_untagged`.
    SpecialDir(SpecialKind),
    /// A file, by its basename.
    File(String),
}

/// What an `InodeEntry` says.
pub enum NodeView {
    Dir(Set<Name>),
    SpecialDir(SpecialKind),
    File(Name),
}

impl View for InodeEntry {
    type V = NodeView;

    open spec fn view(&self) -> NodeView {
        match self {
            InodeEntry::Dir(tags) => NodeView::Dir(tags@),
            InodeEntry::SpecialDir(kind) => NodeView::SpecialDir(*kind),
            InodeEntry::File(bn) => NodeView::File(bn@),
        }
    }
}

impl InodeEntry {
    /// A second entry that says the same.
    pub fn dup(&self) -> (r: Self)
        ensures
            r@ == self@,
    {
        match self {
            InodeEntry::Dir(tags) => InodeEntry::Dir(tags.dup()),
            InodeEntry::SpecialDir(kind) => InodeEntry::SpecialDir(*kind),
            InodeEntry::File(bn) => InodeEntry::File(bn.clone()),
        }
    }
}

/// The inodes in use.
pub struct InodeTable {
    inodes: HashMap<u64, InodeEntry>,
    dir_to_inode: TagMap<u64>,
    file_to_inode: NameMap<u64>,
    next_inode: u64,
}

/// What an `InodeTable` says.
#[verifier::ext_equal]
pub struct InodeView {
    pub nodes: Map<u64, NodeView>,
    pub dirs: Map<Set<Name>, u64>,
    pub files: Map<Name, u64>,
    pub next: u64,
}

impl InodeView {
    /// The table before anything was looked up.
    pub open spec fn fresh() -> InodeView {
        InodeView {
            nodes: Map::empty().insert(ROOT_INODE, NodeView::Dir(Set::empty())).insert(
                ALL_INODE,
                NodeView::SpecialDir(SpecialKind::All),
            ).insert(UNTAGGED_INODE, NodeView::SpecialDir(SpecialKind::Untagged)),
            dirs: Map::empty().insert(Set::empty(), ROOT_INODE),
            files: Map::empty(),
            next: FIRST_INODE,
        }
    }

    /// The table with an inode for a set of tags.
    pub open spec fn with_dir(self, tags: Set<Name>) -> InodeView {
        if self.dirs.contains_key(tags) {
            self
        } else {
            InodeView {
                nodes: self.nodes.insert(self.next, NodeView::Dir(tags)),
                dirs: self.dirs.insert(tags, self.next),
                files: self.files,
                next: (self.next + 1) as u64,
            }
        }
    }

    /// The table with an inode for a file.
    pub open spec fn with_file(self, bn: Name) -> InodeView {
        if self.files.contains_key(bn) {
            self
        } else {
            InodeView {
                nodes: self.nodes.insert(self.next, NodeView::File(bn)),
                dirs: self.dirs,
                files: self.files.insert(bn, self.next),
                next: (self.next + 1) as u64,
            }
        }
    }

    /// The table without the inode of a set of tags.
    pub open spec fn without_dir(self, tags: Set<Name>) -> InodeView {
        if self.dirs.contains_key(tags) {
            InodeView {
                nodes: self.nodes.remove(self.dirs[tags]),
                dirs: self.dirs.remove(tags),
                files: self.files,
                next: self.next,
            }
        } else {
            self
        }
    }

    /// The table without the inode of a file.
    pub open spec fn without_file(self, bn: Name) -> InodeView {
        if self.files.contains_key(bn) {
            InodeView {
                nodes: self.nodes.remove(self.files[bn]),
                dirs: self.dirs,
                files: self.files.remove(bn),
                next: self.next,
            }
        } else {
            self
        }
    }

    /// Every inode is known by what it stands for and the other way round, the
    /// special directories have theirs, and none in use will be given out.
    pub open spec fn ok(self) -> bool {
        &&& self.next >= FIRST_INODE
        &&& self.nodes.contains_key(ALL_INODE)
        &&& self.nodes[ALL_INODE] == NodeView::SpecialDir(SpecialKind::All)
        &&& self.nodes.contains_key(UNTAGGED_INODE)
        &&& self.nodes[UNTAGGED_INODE] == NodeView::SpecialDir(SpecialKind::Untagged)
        &&& forall|i: u64| #[trigger]
            self.nodes.contains_key(i) ==> {
                &&& 0 < i < self.next
                &&& match self.nodes[i] {
                    NodeView::Dir(tags) => self.dirs.contains_key(tags) && self.dirs[tags] == i,
                    NodeView::File(bn) => self.files.contains_key(bn) && self.files[bn] == i,
                    NodeView::SpecialDir(SpecialKind::All) => i == ALL_INODE,
                    NodeView::SpecialDir(SpecialKind::Untagged) => i == UNTAGGED_INODE,
                }
            }
        &&& forall|t: Set<Name>| #[trigger]
            self.dirs.contains_key(t) ==> self.nodes.contains_key(self.dirs[t])
                && self.nodes[self.dirs[t]] == NodeView::Dir(t)
        &&& forall|n: Name| #[trigger]
            self.files.contains_key(n) ==> self.nodes.contains_key(self.files[n])
                && self.nodes[self.files[n]] == NodeView::File(n)
    }

    /// The root directory has its inode.
    pub open spec fn has_root(self) -> bool {
        self.nodes.contains_key(ROOT_INODE) && self.nodes[ROOT_INODE] == NodeView::Dir(Set::empty())
    }
}

/// The entries, by what they say.
pub closed spec fn node_views(m: Map<u64, InodeEntry>) -> Map<u64, NodeView> {
    m.map_values(|e: InodeEntry| e@)
}

impl View for InodeTable {
    type V = InodeView;

    closed spec fn view(&self) -> InodeView {
        InodeView {
            nodes: node_views(self.inodes@),
            dirs: self.dir_to_inode@,
            files: self.file_to_inode@,
            next: self.next_inode,
        }
    }
}

impl InodeTable {
    /// A table with the root and the special directories.
    pub fn new() -> (r: Self)
        ensures
            r@ == InodeView::fresh(),
            r@.ok(),
            r@.has_root(),
    {
        let mut inodes: HashMap<u64, InodeEntry> = HashMap::new();
        let mut dir_to_inode: TagMap<u64> = SortedMap::new();
        inodes.insert(ROOT_INODE, InodeEntry::Dir(SortedSet::new()));
        dir_to_inode.insert(SortedSet::new(), ROOT_INODE);
        inodes.insert(ALL_INODE, InodeEntry::SpecialDir(SpecialKind::All));
        inodes.insert(UNTAGGED_INODE, InodeEntry::SpecialDir(SpecialKind::Untagged));
        let r = InodeTable {
            inodes,
            dir_to_inode,
            file_to_inode: SortedMap::new(),
            next_inode: FIRST_INODE,
        };
        assert(r@.nodes =~= InodeView::fresh().nodes);
        r
    }

    /// How many inodes can still be given out.
    pub fn room(&self) -> (r: u64)
        ensures
            r == u64::MAX - self@.next,
    {
        u64::MAX - self.next_inode
    }

    /// The inode of a set of tags, a new one if it has none yet.
    pub fn get_or_alloc_dir(&mut self, tags: &NameSet) -> (ino: u64)
        requires
            old(self)@.dirs.contains_key(tags@) || old(self)@.next < u64::MAX,
        ensures
            final(self)@ == old(self)@.with_dir(tags@),
            final(self)@.dirs.contains_key(tags@),
            ino == final(self)@.dirs[tags@],
    {
        match self.dir_to_inode.get(tags) {
            Some(ino) => {
                return *ino;
            },
            None => {},
        }
        let ino = self.next_inode;
        self.next_inode = ino + 1;
        self.dir_to_inode.insert(tags.dup(), ino);
        self.inodes.insert(ino, InodeEntry::Dir(tags.dup()));
        assert(self@.nodes =~= old(self)@.with_dir(tags@).nodes);
        ino
    }

    /// The inode of a file, a new one if it has none yet.
    pub fn get_or_alloc_file(&mut self, basename: &String) -> (ino: u64)
        requires
            old(self)@.files.contains_key(basename@) || old(self)@.next < u64::MAX,
        ensures
            final(self)@ == old(self)@.with_file(basename@),
            final(self)@.files.contains_key(basename@),
            ino == final(self)@.files[basename@],
    {
        match self.file_to_inode.get(basename) {
            Some(ino) => {
                return *ino;
            },
            None => {},
        }
        let ino = self.next_inode;
        self.next_inode = ino + 1;
        self.file_to_inode.insert(basename.clone(), ino);
        self.inodes.insert(ino, InodeEntry::File(basename.clone()));
        assert(self@.nodes =~= old(self)@.with_file(basename@).nodes);
        ino
    }

    /// What an inode stands for.
    pub fn get(&self, ino: u64) -> (r: Option<&InodeEntry>)
        ensures
            match r {
                Some(e) => self@.nodes.contains_key(ino) && e@ == self@.nodes[ino],
                None => !self@.nodes.contains_key(ino),
            },
    {
        self.inodes.get(&ino)
    }

    /// The inode of a file, if it has one.
    pub fn file_inode(&self, basename: &String) -> (r: Option<u64>)
        ensures
            match r {
                Some(ino) => self@.files.contains_key(basename@) && ino == self@.files[basename@],
                None => !self@.files.contains_key(basename@),
            },
    {
        match self.file_to_inode.get(basename) {
            Some(ino) => Some(*ino),
            None => None,
        }
    }

    /// The inode of a set of tags, if it has one.
    pub fn dir_inode(&self, tags: &NameSet) -> (r: Option<u64>)
        ensures
            match r {
                Some(ino) => self@.dirs.contains_key(tags@) && ino == self@.dirs[tags@],
                None => !self@.dirs.contains_key(tags@),
            },
    {
        match self.dir_to_inode.get(tags) {
            Some(ino) => Some(*ino),
            None => None,
        }
    }

    /// Forgets the inode of a file.
    pub fn remove_file(&mut self, basename: &String)
        ensures
            final(self)@ == old(self)@.without_file(basename@),
    {
        match self.file_to_inode.remove(basename) {
            Some(ino) => {
                self.inodes.remove(&ino);
            },
            None => {},
        }
        assert(self@ =~= old(self)@.without_file(basename@)) by {
            assert(self@.nodes =~= old(self)@.without_file(basename@).nodes);
            assert(self@.files =~= old(self)@.without_file(basename@).files);
        }
    }

    /// Forgets the inode of a set of tags.
    pub fn remove_dir(&mut self, tags: &NameSet)
        ensures
            final(self)@ == old(self)@.without_dir(tags@),
    {
        match self.dir_to_inode.remove(tags) {
            Some(ino) => {
                self.inodes.remove(&ino);
            },
            None => {},
        }
        assert(self@ =~= old(self)@.without_dir(tags@)) by {
            assert(self@.nodes =~= old(self)@.without_dir(tags@).nodes);
            assert(self@.dirs =~= old(self)@.without_dir(tags@).dirs);
        }
    }
}

} // verus!
