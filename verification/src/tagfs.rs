//! The mounted filesystem: its source tree and its state.
use vstd::prelude::*;

use crate::inode::{InodeEntry, NodeView, SpecialKind, ROOT_INODE};
use crate::names::{Name, NameSet, Path};
use crate::path::{path_join, FsPath};
use crate::scanner::{ScanResult, ScanView};
use crate::sorted_set::SortedSet;
use crate::state::{FsState, FsView};

verus! {

/// The name of the directory with every file.
pub const SPECIAL_ALL_NAME: &'static str = "_all";

/// The name of the directory with the files that have no tags.
pub const SPECIAL_UNTAGGED_NAME: &'static str = "_untagged";

/// Why a request is refused.
#[derive(Clone, Copy, PartialEq, Eq, Debug, Structural)]
pub enum Errno {
    /// There is no such file or directory.
    NoEnt,
    /// The name is taken.
    Exist,
    /// This is not done here.
    Perm,
    /// The directory is not empty.
    NotEmpty,
    /// Not a directory.
    NotDir,
    /// A directory.
    IsDir,
    /// The request makes no sense.
    Inval,
    /// The system failed and did not say why.
    Io,
    /// The system failed with this code.
    Os(i32),
}

/// A filesystem that shows a source tree by tags.
pub struct TagFs {
    /// The top of the source tree.
    pub root: FsPath,
    /// What the filesystem knows of it.
    pub state: FsState,
}

/// What a `TagFs` says.
#[verifier::ext_equal]
pub struct TagView {
    pub root: Path,
    pub state: FsView,
}

impl View for TagFs {
    type V = TagView;

    open spec fn view(&self) -> TagView {
        TagView { root: self.root@, state: self.state@ }
    }
}

/// Where the attributes of an inode come from.
pub enum Target {
    /// A directory, whose attributes are made up.
    Dir,
    /// The file at this place.
    File(FsPath),
}

/// What a `Target` says.
pub enum TargetView {
    Dir,
    File(Path),
}

impl View for Target {
    type V = TargetView;

    open spec fn view(&self) -> TargetView {
        match self {
            Target::Dir => TargetView::Dir,
            Target::File(p) => TargetView::File(p@),
        }
    }
}

/// A result by what it says.
pub open spec fn told<T: View>(r: Result<T, Errno>) -> Result<T::V, Errno> {
    match r {
        Ok(x) => Ok(x@),
        Err(e) => Err(e),
    }
}

impl TagView {
    /// The filesystem right after a scan.
    pub open spec fn of_scan(root: Path, scan: ScanView) -> TagView {
        TagView { root, state: FsView::of_scan(scan) }
    }

    /// The same source tree with another state.
    pub open spec fn with(self, state: FsView) -> TagView {
        TagView { root: self.root, state }
    }

    /// Where a path of the source tree is.
    pub open spec fn full(self, p: Path) -> Path {
        path_join(self.root, p)
    }

    /// What an inode stands for.
    pub open spec fn node(self, ino: u64) -> Option<NodeView> {
        if self.state.inodes.nodes.contains_key(ino) {
            Some(self.state.inodes.nodes[ino])
        } else {
            None
        }
    }

    /// Where a file is.
    pub open spec fn file_path(self, bn: Name) -> Result<Path, Errno> {
        if self.state.files.contains_key(bn) {
            Ok(self.full(self.state.files[bn].ffn))
        } else {
            Err(Errno::NoEnt)
        }
    }

    /// Where the attributes of an inode come from.
    pub open spec fn attr_target(self, ino: u64) -> Result<TargetView, Errno> {
        match self.node(ino) {
            Some(NodeView::File(bn)) => match self.file_path(bn) {
                Ok(p) => Ok(TargetView::File(p)),
                Err(e) => Err(e),
            },
            Some(_) => Ok(TargetView::Dir),
            None => Err(Errno::NoEnt),
        }
    }

    /// The file that is opened for an inode.
    pub open spec fn open_target(self, ino: u64) -> Result<Path, Errno> {
        match self.node(ino) {
            Some(NodeView::File(bn)) => self.file_path(bn),
            Some(_) => Err(Errno::IsDir),
            None => Err(Errno::NoEnt),
        }
    }

    /// The link that is read for an inode.
    pub open spec fn link_target(self, ino: u64) -> Result<Path, Errno> {
        match self.node(ino) {
            Some(NodeView::File(bn)) => self.file_path(bn),
            _ => Err(Errno::Inval),
        }
    }

    /// The tags of the directory `ino`. In `_all` they are those of the file
    /// `bn` itself.
    pub open spec fn tags_at(self, ino: u64, bn: Name) -> Option<Set<Name>> {
        match self.node(ino) {
            Some(NodeView::Dir(tags)) => Some(
                if ino == ROOT_INODE {
                    Set::empty()
                } else {
                    tags
                },
            ),
            Some(NodeView::SpecialDir(SpecialKind::All)) => Some(self.tags_of(bn)),
            Some(NodeView::SpecialDir(SpecialKind::Untagged)) => Some(Set::empty()),
            _ => None,
        }
    }

    /// The tags of the file `bn`, none where there is no such file.
    pub open spec fn tags_of(self, bn: Name) -> Set<Name> {
        if self.state.files.contains_key(bn) {
            self.state.files[bn].tags
        } else {
            Set::empty()
        }
    }
}

impl TagFs {
    /// The filesystem over the tree at `root`, right after its scan.
    pub fn new(root: FsPath, scan: ScanResult) -> (r: Self)
        ensures
            r@ == TagView::of_scan(root@, scan@),
    {
        TagFs { root, state: FsState::from_scan(scan) }
    }

    /// Where a path of the source tree is.
    pub fn full_path(&self, p: &FsPath) -> (r: FsPath)
        ensures
            r@ == self@.full(p@),
    {
        self.root.join(p)
    }

    /// The physical path of a file.
    pub fn resolve_file_path(&self, basename: &String) -> (r: Result<FsPath, Errno>)
        ensures
            told(r) == self@.file_path(basename@),
    {
        match self.state.files.get(basename) {
            Some(entry) => Ok(self.full_path(&entry.ffn)),
            None => Err(Errno::NoEnt),
        }
    }

    /// Where the attributes of an inode come from.
    pub fn getattr(&self, inode: u64) -> (r: Result<Target, Errno>)
        ensures
            told(r) == self@.attr_target(inode),
    {
        match self.state.inode_table.get(inode) {
            Some(InodeEntry::File(bn)) => match self.resolve_file_path(bn) {
                Ok(p) => Ok(Target::File(p)),
                Err(e) => Err(e),
            },
            Some(_) => Ok(Target::Dir),
            None => Err(Errno::NoEnt),
        }
    }

    /// The file to open for an inode.
    pub fn open(&self, inode: u64) -> (r: Result<FsPath, Errno>)
        ensures
            told(r) == self@.open_target(inode),
    {
        match self.state.inode_table.get(inode) {
            Some(InodeEntry::File(bn)) => self.resolve_file_path(bn),
            Some(_) => Err(Errno::IsDir),
            None => Err(Errno::NoEnt),
        }
    }

    /// The link to read for an inode.
    pub fn readlink(&self, inode: u64) -> (r: Result<FsPath, Errno>)
        ensures
            told(r) == self@.link_target(inode),
    {
        match self.state.inode_table.get(inode) {
            Some(InodeEntry::File(bn)) => self.resolve_file_path(bn),
            _ => Err(Errno::Inval),
        }
    }

    /// Whether an inode may be accessed: every one that there is.
    pub fn access(&self, inode: u64) -> (r: Result<(), Errno>)
        ensures
            r == (if self@.node(inode) is Some {
                Ok(())
            } else {
                Err::<(), Errno>(Errno::NoEnt)
            }),
    {
        match self.state.inode_table.get(inode) {
            Some(_) => Ok(()),
            None => Err(Errno::NoEnt),
        }
    }

    /// Whether an inode can be listed.
    pub fn opendir(&self, inode: u64) -> (r: Result<(), Errno>)
        ensures
            r == (match self@.node(inode) {
                Some(NodeView::Dir(_)) | Some(NodeView::SpecialDir(_)) => Ok(()),
                _ => Err::<(), Errno>(Errno::NotDir),
            }),
    {
        match self.state.inode_table.get(inode) {
            Some(InodeEntry::Dir(_)) => Ok(()),
            Some(InodeEntry::SpecialDir(_)) => Ok(()),
            _ => Err(Errno::NotDir),
        }
    }

    /// The tags of the directory `ino`; in `_all` those of the file `bn`.
    pub fn tags_at(&self, ino: u64, bn: &String) -> (r: Option<NameSet>)
        ensures
            match r {
                Some(tags) => self@.tags_at(ino, bn@) == Some(tags@),
                None => self@.tags_at(ino, bn@) is None,
            },
    {
        match self.state.inode_table.get(ino) {
            Some(InodeEntry::Dir(tags)) => {
                if ino == ROOT_INODE {
                    Some(SortedSet::new())
                } else {
                    Some(tags.dup())
                }
            },
            Some(InodeEntry::SpecialDir(SpecialKind::All)) => Some(self.tags_of(bn)),
            Some(InodeEntry::SpecialDir(SpecialKind::Untagged)) => Some(SortedSet::new()),
            _ => None,
        }
    }

    /// The tags of the file `bn`, none where there is no such file.
    pub fn tags_of(&self, bn: &String) -> (r: NameSet)
        ensures
            r@ == self@.tags_of(bn@),
    {
        match self.state.files.get(bn) {
            Some(entry) => entry.tags.dup(),
            None => SortedSet::new(),
        }
    }
}

} // verus!
