//! The requests that change the source tree, one disk operation at a time.
//!
//! A request starts with a method of `TagFs` that hands back a `Step`. While it
//! is `Ask`, the caller performs the operation and resumes with what came of
//! it. `End` gives the filesystem back, with the result.
use vstd::prelude::*;
use vstd::utf8::*;

use crate::inode::{InodeEntry, NodeView, SpecialKind, ROOT_INODE};
use crate::names::{Name, NameSet, Path};
use crate::path::{parse_path, path_join, FsPath};
use crate::rename_tag::{has_clash, pairs, same_path};
use crate::sorted_set::SortedSet;
use crate::state::{clashes, first_path, is_rename_plan, FsView};
use crate::tagfs::{
    told, Errno, TagFs, TagView, SPECIAL_ALL_NAME, SPECIAL_UNTAGGED_NAME,
};
use crate::text::{same_text, text, text_of};

verus! {

/// What the caller is asked to do on the disk.
#[derive(PartialEq, Eq, Debug)]
pub enum DiskOp {
    /// Tell whether there is anything at this place.
    Exists(FsPath),
    /// Make this directory, with those above it.
    CreateDirAll(FsPath),
    /// Move what is at the first place to the second.
    Rename(FsPath, FsPath),
    /// Delete this file.
    RemoveFile(FsPath),
    /// Delete this empty directory.
    RemoveDir(FsPath),
    /// Make this file, which must not exist.
    CreateFile(FsPath),
}

/// What a `DiskOp` says.
pub enum OpView {
    Exists(Path),
    CreateDirAll(Path),
    Rename(Path, Path),
    RemoveFile(Path),
    RemoveDir(Path),
    CreateFile(Path),
}

impl View for DiskOp {
    type V = OpView;

    open spec fn view(&self) -> OpView {
        match self {
            DiskOp::Exists(p) => OpView::Exists(p@),
            DiskOp::CreateDirAll(p) => OpView::CreateDirAll(p@),
            DiskOp::Rename(p, q) => OpView::Rename(p@, q@),
            DiskOp::RemoveFile(p) => OpView::RemoveFile(p@),
            DiskOp::RemoveDir(p) => OpView::RemoveDir(p@),
            DiskOp::CreateFile(p) => OpView::CreateFile(p@),
        }
    }
}

/// What came of a `DiskOp`: for `Exists` the answer, where a failure means no;
/// for the others `Ok`, or the code that the system failed with, if it gave one.
pub type Reply = Result<bool, Option<i32>>;

/// What a request has to say when it succeeds.
pub enum Outcome {
    /// That it is done.
    Done,
    /// The inode of what was made.
    Inode(u64),
    /// The directory for a set of tags.
    Dir(FsPath),
}

/// What an `Outcome` says.
pub enum OutcomeView {
    Done,
    Inode(u64),
    Dir(Path),
}

impl View for Outcome {
    type V = OutcomeView;

    open spec fn view(&self) -> OutcomeView {
        match self {
            Outcome::Done => OutcomeView::Done,
            Outcome::Inode(ino) => OutcomeView::Inode(*ino),
            Outcome::Dir(p) => OutcomeView::Dir(p@),
        }
    }
}

/// What is left of a request while an operation is under way.
enum Task {
    Dir { tags: NameSet },
    Mkdir { tags: NameSet },
    CreateDir { bn: String, tags: NameSet },
    CreateFile { bn: String, tags: NameSet, ffn: FsPath },
    Unlink { bn: String },
    RmdirLook { tags: NameSet },
    RmdirDrop { tags: NameSet },
    RenameLook { old_bn: String, new_bn: String, add: NameSet, remove: NameSet },
    RenameMove { old_bn: String, new_bn: String, add: NameSet, remove: NameSet },
    RetagDir { bn: String, add: NameSet, remove: NameSet },
    RetagLook { bn: String, add: NameSet, remove: NameSet, ffn: FsPath },
    RetagMove { bn: String, add: NameSet, remove: NameSet, ffn: FsPath },
    TagLookOld { old: String, new: String, plan: Vec<(FsPath, FsPath)>, at: usize },
    TagLookNew { old: String, new: String, plan: Vec<(FsPath, FsPath)>, at: usize },
    TagMove { old: String, new: String, plan: Vec<(FsPath, FsPath)>, at: usize },
}

/// What a `Task` says.
pub enum TaskView {
    /// The directory for these tags is being made.
    Dir { tags: Set<Name> },
    /// The directory of a new tag is being made.
    Mkdir { tags: Set<Name> },
    /// The directory for a new file is being made.
    CreateDir { bn: Name, tags: Set<Name> },
    /// A new file is being made.
    CreateFile { bn: Name, tags: Set<Name>, ffn: Path },
    /// A file is being deleted.
    Unlink { bn: Name },
    /// The first directory of a tag is looked for.
    RmdirLook { tags: Set<Name> },
    /// The first directory of a tag is being deleted.
    RmdirDrop { tags: Set<Name> },
    /// The new place of a file is looked at.
    RenameLook { old_bn: Name, new_bn: Name, add: Set<Name>, remove: Set<Name> },
    /// A file is being renamed.
    RenameMove { old_bn: Name, new_bn: Name, add: Set<Name>, remove: Set<Name> },
    /// The directory for a file with other tags is being made.
    RetagDir { bn: Name, add: Set<Name>, remove: Set<Name> },
    /// The place of a file with other tags is looked at.
    RetagLook { bn: Name, add: Set<Name>, remove: Set<Name>, ffn: Path },
    /// A file is being moved to change its tags.
    RetagMove { bn: Name, add: Set<Name>, remove: Set<Name>, ffn: Path },
    /// A directory of a renamed tag is looked for.
    TagLookOld { old: Name, new: Name, plan: Seq<(Path, Path)>, at: int },
    /// The new place of a directory of a renamed tag is looked at.
    TagLookNew { old: Name, new: Name, plan: Seq<(Path, Path)>, at: int },
    /// A directory of a renamed tag is being renamed.
    TagMove { old: Name, new: Name, plan: Seq<(Path, Path)>, at: int },
}

impl Task {
    spec fn says(self) -> TaskView {
        match self {
            Task::Dir { tags } => TaskView::Dir { tags: tags@ },
            Task::Mkdir { tags } => TaskView::Mkdir { tags: tags@ },
            Task::CreateDir { bn, tags } => TaskView::CreateDir { bn: bn@, tags: tags@ },
            Task::CreateFile { bn, tags, ffn } => TaskView::CreateFile {
                bn: bn@,
                tags: tags@,
                ffn: ffn@,
            },
            Task::Unlink { bn } => TaskView::Unlink { bn: bn@ },
            Task::RmdirLook { tags } => TaskView::RmdirLook { tags: tags@ },
            Task::RmdirDrop { tags } => TaskView::RmdirDrop { tags: tags@ },
            Task::RenameLook { old_bn, new_bn, add, remove } => TaskView::RenameLook {
                old_bn: old_bn@,
                new_bn: new_bn@,
                add: add@,
                remove: remove@,
            },
            Task::RenameMove { old_bn, new_bn, add, remove } => TaskView::RenameMove {
                old_bn: old_bn@,
                new_bn: new_bn@,
                add: add@,
                remove: remove@,
            },
            Task::RetagDir { bn, add, remove } => TaskView::RetagDir {
                bn: bn@,
                add: add@,
                remove: remove@,
            },
            Task::RetagLook { bn, add, remove, ffn } => TaskView::RetagLook {
                bn: bn@,
                add: add@,
                remove: remove@,
                ffn: ffn@,
            },
            Task::RetagMove { bn, add, remove, ffn } => TaskView::RetagMove {
                bn: bn@,
                add: add@,
                remove: remove@,
                ffn: ffn@,
            },
            Task::TagLookOld { old, new, plan, at } => TaskView::TagLookOld {
                old: old@,
                new: new@,
                plan: pairs(plan@),
                at: at as int,
            },
            Task::TagLookNew { old, new, plan, at } => TaskView::TagLookNew {
                old: old@,
                new: new@,
                plan: pairs(plan@),
                at: at as int,
            },
            Task::TagMove { old, new, plan, at } => TaskView::TagMove {
                old: old@,
                new: new@,
                plan: pairs(plan@),
                at: at as int,
            },
        }
    }
}

impl TaskView {
    /// What the task needs of the state is there.
    pub open spec fn fits(self, s: FsView) -> bool {
        match self {
            TaskView::Dir { .. } => true,
            TaskView::Mkdir { .. } | TaskView::CreateDir { .. } | TaskView::CreateFile { .. } =>
                s.inodes.next < u64::MAX,
            TaskView::Unlink { bn } => s.files.contains_key(bn),
            TaskView::RmdirLook { tags } | TaskView::RmdirDrop { tags } => s.knows_dir(tags)
                && !s.goes_further(tags),
            TaskView::RenameLook { old_bn, .. } | TaskView::RenameMove { old_bn, .. } =>
                s.files.contains_key(old_bn) && s.inodes.next < u64::MAX,
            TaskView::RetagDir { bn, .. } | TaskView::RetagLook { bn, .. }
            | TaskView::RetagMove { bn, .. } => s.files.contains_key(bn),
            TaskView::TagLookOld { plan, at, .. } | TaskView::TagLookNew { plan, at, .. }
            | TaskView::TagMove { plan, at, .. } => 0 <= at < plan.len(),
        }
    }
}

/// A request that waits for a disk operation. It holds the filesystem, so that
/// nothing else changes meanwhile.
pub struct Pending {
    fs: TagFs,
    task: Task,
}

/// What a `Pending` says.
pub struct PendingView {
    pub fs: TagView,
    pub task: TaskView,
}

impl View for Pending {
    type V = PendingView;

    closed spec fn view(&self) -> PendingView {
        PendingView { fs: self.fs@, task: self.task.says() }
    }
}

impl Pending {
    #[verifier::type_invariant]
    spec fn inv(self) -> bool {
        self.task.says().fits(self.fs@.state)
    }

    fn new(fs: TagFs, task: Task) -> (r: Self)
        requires
            task.says().fits(fs@.state),
        ensures
            r@ == (PendingView { fs: fs@, task: task.says() }),
    {
        Pending { fs, task }
    }
}

/// How far a request is.
pub enum Step {
    /// This has to be done on the disk before it goes on.
    Ask(DiskOp, Pending),
    /// It is over.
    End(TagFs, Result<Outcome, Errno>),
}

/// What a `Step` says.
pub enum StepView {
    Ask(OpView, TagView, TaskView),
    End(TagView, Result<OutcomeView, Errno>),
}

impl View for Step {
    type V = StepView;

    open spec fn view(&self) -> StepView {
        match self {
            Step::Ask(op, p) => StepView::Ask(op@, p@.fs, p@.task),
            Step::End(fs, r) => StepView::End(fs@, told(*r)),
        }
    }
}

/// The error for a failed operation.
pub open spec fn os_error(code: Option<i32>) -> Errno {
    match code {
        Some(c) => Errno::Os(c),
        None => Errno::Io,
    }
}

/// Where a file of this name is in a directory.
pub open spec fn placed(dir: Path, bn: Name) -> Path {
    path_join(dir, parse_path(encode_utf8(bn)))
}

fn code_of(code: Option<i32>) -> (r: Errno)
    ensures
        r == os_error(code),
{
    match code {
        Some(c) => Errno::Os(c),
        None => Errno::Io,
    }
}

/// Whether the thing was found; a failed look counts as no.
pub open spec fn found(reply: Reply) -> bool {
    reply == Ok::<bool, Option<i32>>(true)
}

fn was_found(reply: &Reply) -> (r: bool)
    ensures
        r == found(*reply),
{
    match reply {
        Ok(b) => *b,
        Err(_) => false,
    }
}

impl TagView {
    /// The directory for a set of tags is there.
    pub open spec fn dir_done(self, tags: Set<Name>) -> StepView {
        StepView::End(
            self.with(self.state.with_dir_for_tags(tags)),
            Ok(OutcomeView::Dir(self.state.dir_for_tags(tags))),
        )
    }

    /// The directory for a set of tags is asked for.
    pub open spec fn dir_step(self, tags: Set<Name>) -> StepView {
        if self.state.dir_is_missing(tags) {
            StepView::Ask(
                OpView::CreateDirAll(self.full(self.state.dir_for_tags(tags))),
                self,
                TaskView::Dir { tags },
            )
        } else {
            self.dir_done(tags)
        }
    }

    /// The directory of a new tag is there.
    pub open spec fn mkdir_done(self, tags: Set<Name>) -> StepView {
        let s = self.state.with_dir_for_tags(tags);
        let t = FsView { inodes: s.inodes.with_dir(tags), ..s };
        StepView::End(self.with(t), Ok(OutcomeView::Inode(t.inodes.dirs[tags])))
    }

    /// A tag is added below `parent`.
    pub open spec fn mkdir_step(self, parent: u64, name: Name) -> StepView {
        match self.node(parent) {
            Some(NodeView::SpecialDir(_)) => StepView::End(self, Err(Errno::Perm)),
            Some(NodeView::Dir(parent_tags)) => {
                let tags = parent_tags.insert(name);
                if self.state.dir_is_missing(tags) {
                    StepView::Ask(
                        OpView::CreateDirAll(self.full(self.state.dir_for_tags(tags))),
                        self,
                        TaskView::Mkdir { tags },
                    )
                } else {
                    self.mkdir_done(tags)
                }
            },
            _ => StepView::End(self, Err(Errno::NoEnt)),
        }
    }

    /// The directory for a new file is there.
    pub open spec fn create_placed(self, bn: Name, tags: Set<Name>) -> StepView {
        let ffn = placed(self.state.dir_for_tags(tags), bn);
        StepView::Ask(
            OpView::CreateFile(self.full(ffn)),
            self.with(self.state.with_dir_for_tags(tags)),
            TaskView::CreateFile { bn, tags, ffn },
        )
    }

    /// A file is made in `parent`, unless that is a special directory.
    pub open spec fn create_step(self, parent: u64, bn: Name) -> StepView {
        match self.node(parent) {
            Some(NodeView::SpecialDir(_)) => StepView::End(
                self,
                Err(
                    if self.state.files.contains_key(bn) {
                        Errno::Exist
                    } else {
                        Errno::Perm
                    },
                ),
            ),
            Some(NodeView::Dir(_)) => {
                let tags = self.tags_at(parent, bn).unwrap();
                if self.state.files.contains_key(bn) {
                    StepView::End(self, Err(Errno::Exist))
                } else if self.state.dir_is_missing(tags) {
                    StepView::Ask(
                        OpView::CreateDirAll(self.full(self.state.dir_for_tags(tags))),
                        self,
                        TaskView::CreateDir { bn, tags },
                    )
                } else {
                    self.create_placed(bn, tags)
                }
            },
            _ => StepView::End(self, Err(Errno::NoEnt)),
        }
    }

    /// A file is deleted.
    pub open spec fn unlink_step(self, bn: Name) -> StepView {
        if self.state.files.contains_key(bn) {
            StepView::Ask(
                OpView::RemoveFile(self.full(self.state.files[bn].ffn)),
                self,
                TaskView::Unlink { bn },
            )
        } else {
            StepView::End(self, Err(Errno::NoEnt))
        }
    }

    /// The directories of a tag are deleted, the first one first.
    pub open spec fn rmdir_next(self, tags: Set<Name>) -> StepView {
        if self.state.knows_dir(tags) {
            StepView::Ask(
                OpView::Exists(self.full(first_path(self.state.tagdirs[tags]))),
                self,
                TaskView::RmdirLook { tags },
            )
        } else {
            StepView::End(self.with(self.state.without_tagdir(tags)), Ok(OutcomeView::Done))
        }
    }

    /// A tag is removed below `parent`, unless it occurs there together with a
    /// further tag.
    pub open spec fn rmdir_step(self, parent: u64, name: Name) -> StepView {
        if name == SPECIAL_ALL_NAME@ || name == SPECIAL_UNTAGGED_NAME@ {
            StepView::End(self, Err(Errno::Perm))
        } else {
            match self.node(parent) {
                Some(NodeView::Dir(parent_tags)) => {
                    let tags = parent_tags.insert(name);
                    if self.state.goes_further(tags) {
                        StepView::End(self, Err(Errno::NotEmpty))
                    } else {
                        self.rmdir_next(tags)
                    }
                },
                _ => StepView::End(self, Err(Errno::NoEnt)),
            }
        }
    }

    /// The file `old_bn` is renamed, and its tags are changed after that.
    pub open spec fn rename_file_step(
        self,
        old_bn: Name,
        new_bn: Name,
        add: Set<Name>,
        remove: Set<Name>,
    ) -> StepView {
        if self.state.files.contains_key(new_bn) {
            StepView::End(self, Err(Errno::Exist))
        } else if !self.state.files.contains_key(old_bn) {
            StepView::End(self, Err(Errno::NoEnt))
        } else {
            StepView::Ask(
                OpView::Exists(self.full(self.state.renamed_ffn(old_bn, new_bn))),
                self,
                TaskView::RenameLook { old_bn, new_bn, add, remove },
            )
        }
    }

    /// Tags are added to the file `bn` and taken off it, where there are any.
    pub open spec fn retag_if_any(self, bn: Name, add: Set<Name>, remove: Set<Name>) -> StepView {
        if add == Set::<Name>::empty() && remove == Set::<Name>::empty() {
            StepView::End(self, Ok(OutcomeView::Done))
        } else {
            self.retag_step(bn, add, remove)
        }
    }

    /// Tags are added to the file `bn` and taken off it.
    pub open spec fn retag_step(self, bn: Name, add: Set<Name>, remove: Set<Name>) -> StepView {
        if !self.state.files.contains_key(bn) {
            StepView::End(self, Err(Errno::NoEnt))
        } else {
            let tags = self.state.changed_tags(bn, add, remove);
            if self.state.dir_is_missing(tags) {
                StepView::Ask(
                    OpView::CreateDirAll(self.full(self.state.dir_for_tags(tags))),
                    self,
                    TaskView::RetagDir { bn, add, remove },
                )
            } else {
                self.retag_placed(bn, add, remove)
            }
        }
    }

    /// The directory for a file with other tags is there.
    pub open spec fn retag_placed(self, bn: Name, add: Set<Name>, remove: Set<Name>) -> StepView {
        let tags = self.state.changed_tags(bn, add, remove);
        let ffn = placed(self.state.dir_for_tags(tags), bn);
        let fs = self.with(self.state.with_dir_for_tags(tags));
        if ffn != self.state.files[bn].ffn {
            StepView::Ask(
                OpView::Exists(self.full(ffn)),
                fs,
                TaskView::RetagLook { bn, add, remove, ffn },
            )
        } else {
            fs.retag_done(bn, add, remove, ffn)
        }
    }

    /// The file with other tags is in its place.
    pub open spec fn retag_done(
        self,
        bn: Name,
        add: Set<Name>,
        remove: Set<Name>,
        ffn: Path,
    ) -> StepView {
        StepView::End(
            self.with(self.state.with_changed_tags(bn, add, remove, ffn)),
            Ok(OutcomeView::Done),
        )
    }

    /// The directories of a plan from place `at` on are looked at.
    pub open spec fn tag_look_next(
        self,
        old: Name,
        new: Name,
        plan: Seq<(Path, Path)>,
        at: int,
    ) -> StepView {
        if at < plan.len() {
            StepView::Ask(
                OpView::Exists(self.full(plan[at].0)),
                self,
                TaskView::TagLookOld { old, new, plan, at },
            )
        } else {
            self.tag_move_next(old, new, plan, 0)
        }
    }

    /// The directories of a plan from place `at` on are renamed.
    pub open spec fn tag_move_next(
        self,
        old: Name,
        new: Name,
        plan: Seq<(Path, Path)>,
        at: int,
    ) -> StepView {
        if at < plan.len() {
            StepView::Ask(
                OpView::Rename(self.full(plan[at].0), self.full(plan[at].1)),
                self,
                TaskView::TagMove { old, new, plan, at },
            )
        } else {
            StepView::End(self.with(self.state.with_renamed_tag(old, new)), Ok(OutcomeView::Done))
        }
    }

    /// A tag is renamed, by a plan for its directories.
    pub open spec fn rename_tag_step(
        self,
        old: Name,
        new: Name,
        plan: Seq<(Path, Path)>,
    ) -> StepView {
        if old == new {
            StepView::End(self, Ok(OutcomeView::Done))
        } else if self.state.by_tags.contains_key(new) || clashes(plan) {
            StepView::End(self, Err(Errno::Exist))
        } else {
            self.tag_look_next(old, new, plan, 0)
        }
    }

    /// `name` is a tag and no file.
    pub open spec fn is_tag(self, name: Name) -> bool {
        self.state.by_tags.contains_key(name) && !self.state.files.contains_key(name)
    }

    /// The tags that a file has in the directory `new_parent` when it comes from
    /// `parent`. In `_all` it keeps its own, but for those of the directory that
    /// it is moved out of.
    pub open spec fn tags_after(self, parent: u64, bn: Name, new_parent: u64) -> Option<Set<Name>> {
        match (self.node(parent), self.node(new_parent)) {
            (Some(NodeView::Dir(_)), Some(NodeView::SpecialDir(SpecialKind::All))) => Some(
                self.tags_of(bn).difference(self.tags_at(parent, bn).unwrap()),
            ),
            _ => self.tags_at(new_parent, bn),
        }
    }

    /// The tags that a file has in the directory `parent` when it goes to
    /// `new_parent`; it loses those that `new_parent` does not have. On the way from
    /// `_all` into a tag directory only the tags of that directory count, so that
    /// it loses none.
    pub open spec fn tags_before(self, parent: u64, bn: Name, new_parent: u64) -> Option<
        Set<Name>,
    > {
        match (self.node(parent), self.node(new_parent)) {
            (Some(NodeView::SpecialDir(SpecialKind::All)), Some(NodeView::Dir(to))) => Some(
                if new_parent == ROOT_INODE {
                    self.tags_of(bn)
                } else {
                    self.tags_of(bn).intersect(to)
                },
            ),
            _ => self.tags_at(parent, bn),
        }
    }

    /// The first step of renaming a tag, by any plan for its directories.
    pub open spec fn starts_rename_tag(self, old: Name, new: Name, step: StepView) -> bool {
        exists|plan: Seq<(Path, Path)>| #[trigger]
            is_rename_plan(plan, self.state.tagdirs, old, new) && step == self.rename_tag_step(
                old,
                new,
                plan,
            )
    }

    /// The first step of moving `name` in `parent` to `new_name` in `new_parent`.
    pub open spec fn starts_rename(
        self,
        parent: u64,
        name: Name,
        new_parent: u64,
        new_name: Name,
        step: StepView,
    ) -> bool {
        match (
            self.tags_before(parent, name, new_parent),
            self.tags_after(parent, name, new_parent),
        ) {
            (Some(old_tags), Some(new_tags)) => {
                let add = new_tags.difference(old_tags);
                let remove = old_tags.difference(new_tags);
                if self.is_tag(name) {
                    self.starts_rename_tag(name, new_name, step)
                } else if !self.state.files.contains_key(name) {
                    step == StepView::End(self, Err(Errno::NoEnt))
                } else if name != new_name {
                    step == self.rename_file_step(name, new_name, add, remove)
                } else {
                    step == self.retag_if_any(name, add, remove)
                }
            },
            _ => step == StepView::End(self, Err(Errno::NoEnt)),
        }
    }

    /// A task goes on after its operation.
    pub open spec fn resumed(self, task: TaskView, reply: Reply) -> StepView {
        match task {
            TaskView::Dir { tags } => match reply {
                Ok(_) => self.dir_done(tags),
                Err(c) => StepView::End(self, Err(os_error(c))),
            },
            TaskView::Mkdir { tags } => match reply {
                Ok(_) => self.mkdir_done(tags),
                Err(c) => StepView::End(self, Err(os_error(c))),
            },
            TaskView::CreateDir { bn, tags } => match reply {
                Ok(_) => self.create_placed(bn, tags),
                Err(c) => StepView::End(self, Err(os_error(c))),
            },
            TaskView::CreateFile { bn, tags, ffn } => match reply {
                Ok(_) => {
                    let s = self.state.with_new_file(bn, tags, ffn);
                    StepView::End(self.with(s), Ok(OutcomeView::Inode(s.inodes.files[bn])))
                },
                Err(c) => StepView::End(self, Err(os_error(c))),
            },
            TaskView::Unlink { bn } => match reply {
                Ok(_) => StepView::End(
                    self.with(self.state.without_file(bn)),
                    Ok(OutcomeView::Done),
                ),
                Err(c) => StepView::End(self, Err(os_error(c))),
            },
            TaskView::RmdirLook { tags } => if found(reply) {
                StepView::Ask(
                    OpView::RemoveDir(self.full(first_path(self.state.tagdirs[tags]))),
                    self,
                    TaskView::RmdirDrop { tags },
                )
            } else {
                self.with(self.state.without_first_dir(tags)).rmdir_next(tags)
            },
            TaskView::RmdirDrop { tags } => match reply {
                Ok(_) => self.with(self.state.without_first_dir(tags)).rmdir_next(tags),
                Err(c) => StepView::End(self, Err(os_error(c))),
            },
            TaskView::RenameLook { old_bn, new_bn, add, remove } => if found(reply) {
                StepView::End(self, Err(Errno::Exist))
            } else {
                StepView::Ask(
                    OpView::Rename(
                        self.full(self.state.files[old_bn].ffn),
                        self.full(self.state.renamed_ffn(old_bn, new_bn)),
                    ),
                    self,
                    TaskView::RenameMove { old_bn, new_bn, add, remove },
                )
            },
            TaskView::RenameMove { old_bn, new_bn, add, remove } => match reply {
                Ok(_) => self.with(self.state.with_renamed_file(old_bn, new_bn)).retag_if_any(
                    new_bn,
                    add,
                    remove,
                ),
                Err(c) => StepView::End(self, Err(os_error(c))),
            },
            TaskView::RetagDir { bn, add, remove } => match reply {
                Ok(_) => self.retag_placed(bn, add, remove),
                Err(c) => StepView::End(self, Err(os_error(c))),
            },
            TaskView::RetagLook { bn, add, remove, ffn } => if found(reply) {
                StepView::End(self, Err(Errno::Exist))
            } else {
                StepView::Ask(
                    OpView::Rename(self.full(self.state.files[bn].ffn), self.full(ffn)),
                    self,
                    TaskView::RetagMove { bn, add, remove, ffn },
                )
            },
            TaskView::RetagMove { bn, add, remove, ffn } => match reply {
                Ok(_) => self.retag_done(bn, add, remove, ffn),
                Err(c) => StepView::End(self, Err(os_error(c))),
            },
            TaskView::TagLookOld { old, new, plan, at } => if found(reply) {
                StepView::Ask(
                    OpView::Exists(self.full(plan[at].1)),
                    self,
                    TaskView::TagLookNew { old, new, plan, at },
                )
            } else {
                self.tag_look_next(old, new, plan.remove(at), at)
            },
            TaskView::TagLookNew { old, new, plan, at } => if found(reply) {
                StepView::End(self, Err(Errno::Exist))
            } else {
                self.tag_look_next(old, new, plan, at + 1)
            },
            TaskView::TagMove { old, new, plan, at } => match reply {
                Ok(_) => self.tag_move_next(old, new, plan, at + 1),
                Err(c) => StepView::End(
                    self.with(self.state.with_moved_dirs(plan.take(at))),
                    Err(os_error(c)),
                ),
            },
        }
    }
}

fn refuse(fs: TagFs, e: Errno) -> (r: Step)
    ensures
        r@ == StepView::End(fs@, Err(e)),
{
    Step::End(fs, Err(e))
}

fn ask(fs: TagFs, op: DiskOp, task: Task) -> (r: Step)
    requires
        task.says().fits(fs@.state),
    ensures
        r@ == StepView::Ask(op@, fs@, task.says()),
{
    Step::Ask(op, Pending::new(fs, task))
}

impl TagFs {
    /// Gets or makes the directory for a set of tags.
    pub fn get_dir_for_tags(self, tags: &NameSet) -> (r: Step)
        ensures
            r@ == self@.dir_step(tags@),
    {
        if self.state.dir_is_missing(tags) {
            let dir = self.full_path(&self.state.dir_for_tags(tags));
            ask(self, DiskOp::CreateDirAll(dir), Task::Dir { tags: tags.dup() })
        } else {
            self.dir_done(tags)
        }
    }

    fn dir_done(self, tags: &NameSet) -> (r: Step)
        ensures
            r@ == self@.dir_done(tags@),
    {
        let mut fs = self;
        let dir = fs.state.dir_for_tags(tags);
        fs.state.record_dir(tags);
        Step::End(fs, Ok(Outcome::Dir(dir)))
    }

    /// Adds a tag below `parent`: makes its directory and gives out its inode.
    pub fn mkdir(self, parent: u64, name: &[u8]) -> (r: Step)
        requires
            self@.state.inodes.next < u64::MAX,
        ensures
            r@ == self@.mkdir_step(parent, text_of(name@)),
    {
        let name_str = text(name);
        let mut tags = match self.state.inode_table.get(parent) {
            Some(InodeEntry::SpecialDir(_)) => {
                return refuse(self, Errno::Perm);
            },
            Some(InodeEntry::Dir(tags)) => tags.dup(),
            _ => {
                return refuse(self, Errno::NoEnt);
            },
        };
        tags.insert(name_str);
        if self.state.dir_is_missing(&tags) {
            let dir = self.full_path(&self.state.dir_for_tags(&tags));
            ask(self, DiskOp::CreateDirAll(dir), Task::Mkdir { tags })
        } else {
            self.mkdir_done(&tags)
        }
    }

    fn mkdir_done(self, tags: &NameSet) -> (r: Step)
        requires
            self@.state.inodes.next < u64::MAX,
        ensures
            r@ == self@.mkdir_done(tags@),
    {
        let mut fs = self;
        fs.state.record_dir(tags);
        let ino = fs.state.inode_table.get_or_alloc_dir(tags);
        Step::End(fs, Ok(Outcome::Inode(ino)))
    }

    /// Makes a file in `parent`, with the tags of that directory, and gives out
    /// its inode.
    pub fn create(self, parent: u64, name: &[u8]) -> (r: Step)
        requires
            self@.state.inodes.next < u64::MAX,
        ensures
            r@ == self@.create_step(parent, text_of(name@)),
    {
        let bn = text(name);
        match self.state.inode_table.get(parent) {
            Some(InodeEntry::SpecialDir(_)) => {
                if self.state.files.contains_key(&bn) {
                    return refuse(self, Errno::Exist);
                }
                return refuse(self, Errno::Perm);
            },
            Some(InodeEntry::Dir(_)) => {},
            _ => {
                return refuse(self, Errno::NoEnt);
            },
        }
        let tags = match self.tags_at(parent, &bn) {
            Some(tags) => tags,
            None => {
                return refuse(self, Errno::NoEnt);
            },
        };
        if self.state.files.contains_key(&bn) {
            return refuse(self, Errno::Exist);
        }
        if self.state.dir_is_missing(&tags) {
            let dir = self.full_path(&self.state.dir_for_tags(&tags));
            ask(self, DiskOp::CreateDirAll(dir), Task::CreateDir { bn, tags })
        } else {
            self.create_placed(bn, tags)
        }
    }

    fn create_placed(self, bn: String, tags: NameSet) -> (r: Step)
        requires
            self@.state.inodes.next < u64::MAX,
        ensures
            r@ == self@.create_placed(bn@, tags@),
    {
        let mut fs = self;
        let ffn = fs.state.dir_for_tags(&tags).join_text(bn.as_str());
        fs.state.record_dir(&tags);
        let full = fs.full_path(&ffn);
        ask(fs, DiskOp::CreateFile(full), Task::CreateFile { bn, tags, ffn })
    }

    /// Deletes a file. Which directory it is named in does not matter.
    pub fn unlink(self, _parent: u64, name: &[u8]) -> (r: Step)
        ensures
            r@ == self@.unlink_step(text_of(name@)),
    {
        let bn = text(name);
        let full = match self.resolve_file_path(&bn) {
            Ok(p) => p,
            Err(_) => {
                return refuse(self, Errno::NoEnt);
            },
        };
        ask(self, DiskOp::RemoveFile(full), Task::Unlink { bn })
    }

    /// Removes a tag below `parent`, with its directories.
    pub fn rmdir(self, parent: u64, name: &[u8]) -> (r: Step)
        ensures
            r@ == self@.rmdir_step(parent, text_of(name@)),
    {
        let name_str = text(name);
        if same_text(name_str.as_str(), SPECIAL_ALL_NAME) || same_text(
            name_str.as_str(),
            SPECIAL_UNTAGGED_NAME,
        ) {
            return refuse(self, Errno::Perm);
        }
        let mut tags = match self.state.inode_table.get(parent) {
            Some(InodeEntry::Dir(tags)) => tags.dup(),
            _ => {
                return refuse(self, Errno::NoEnt);
            },
        };
        tags.insert(name_str);
        if self.state.goes_further(&tags) {
            return refuse(self, Errno::NotEmpty);
        }
        self.rmdir_next(tags)
    }

    fn rmdir_next(self, tags: NameSet) -> (r: Step)
        requires
            !self@.state.goes_further(tags@),
        ensures
            r@ == self@.rmdir_next(tags@),
    {
        if self.state.knows_dir(&tags) {
            let full = self.full_path(&self.state.dir_for_tags(&tags));
            ask(self, DiskOp::Exists(full), Task::RmdirLook { tags })
        } else {
            let mut fs = self;
            fs.state.record_rmdir(&tags);
            Step::End(fs, Ok(Outcome::Done))
        }
    }

    /// Renames a file, without a change of its tags.
    pub fn rename_file(self, old_bn: &String, new_bn: &String) -> (r: Step)
        requires
            self@.state.inodes.next < u64::MAX,
        ensures
            r@ == self@.rename_file_step(old_bn@, new_bn@, Set::empty(), Set::empty()),
    {
        self.rename_file_first(old_bn.clone(), new_bn.clone(), SortedSet::new(), SortedSet::new())
    }

    fn rename_file_first(
        self,
        old_bn: String,
        new_bn: String,
        add: NameSet,
        remove: NameSet,
    ) -> (r: Step)
        requires
            self@.state.inodes.next < u64::MAX,
        ensures
            r@ == self@.rename_file_step(old_bn@, new_bn@, add@, remove@),
    {
        if self.state.files.contains_key(&new_bn) {
            return refuse(self, Errno::Exist);
        }
        if !self.state.files.contains_key(&old_bn) {
            return refuse(self, Errno::NoEnt);
        }
        let full = self.full_path(&self.state.renamed_ffn(&old_bn, &new_bn));
        ask(self, DiskOp::Exists(full), Task::RenameLook { old_bn, new_bn, add, remove })
    }

    fn retag_if_any(self, bn: String, add: NameSet, remove: NameSet) -> (r: Step)
        ensures
            r@ == self@.retag_if_any(bn@, add@, remove@),
    {
        if add.is_empty() && remove.is_empty() {
            Step::End(self, Ok(Outcome::Done))
        } else {
            self.retag(bn, add, remove)
        }
    }

    /// Adds tags to a file and takes others off, by moving it.
    pub fn add_remove_tags(
        self,
        bn: &String,
        tags_to_add: &NameSet,
        tags_to_remove: &NameSet,
    ) -> (r: Step)
        ensures
            r@ == self@.retag_step(bn@, tags_to_add@, tags_to_remove@),
    {
        self.retag(bn.clone(), tags_to_add.dup(), tags_to_remove.dup())
    }

    fn retag(self, bn: String, add: NameSet, remove: NameSet) -> (r: Step)
        ensures
            r@ == self@.retag_step(bn@, add@, remove@),
    {
        if !self.state.files.contains_key(&bn) {
            return refuse(self, Errno::NoEnt);
        }
        let tags = self.changed_tags(&bn, &add, &remove);
        if self.state.dir_is_missing(&tags) {
            let dir = self.full_path(&self.state.dir_for_tags(&tags));
            ask(self, DiskOp::CreateDirAll(dir), Task::RetagDir { bn, add, remove })
        } else {
            self.retag_placed(bn, add, remove)
        }
    }

    fn changed_tags(&self, bn: &String, add: &NameSet, remove: &NameSet) -> (r: NameSet)
        requires
            self@.state.files.contains_key(bn@),
        ensures
            r@ == self@.state.changed_tags(bn@, add@, remove@),
    {
        let mut tags = self.tags_of(bn);
        tags.extend(add);
        tags.remove_all(remove);
        tags
    }

    fn retag_placed(self, bn: String, add: NameSet, remove: NameSet) -> (r: Step)
        requires
            self@.state.files.contains_key(bn@),
        ensures
            r@ == self@.retag_placed(bn@, add@, remove@),
    {
        let mut fs = self;
        let tags = fs.changed_tags(&bn, &add, &remove);
        let ffn = fs.state.dir_for_tags(&tags).join_text(bn.as_str());
        let stays = match fs.state.files.get(&bn) {
            Some(entry) => same_path(&ffn, &entry.ffn),
            None => false,
        };
        fs.state.record_dir(&tags);
        if stays {
            fs.retag_done(bn, add, remove, ffn)
        } else {
            let full = fs.full_path(&ffn);
            ask(fs, DiskOp::Exists(full), Task::RetagLook { bn, add, remove, ffn })
        }
    }

    fn retag_done(self, bn: String, add: NameSet, remove: NameSet, ffn: FsPath) -> (r: Step)
        requires
            self@.state.files.contains_key(bn@),
        ensures
            r@ == self@.retag_done(bn@, add@, remove@, ffn@),
    {
        let mut fs = self;
        fs.state.record_changed_tags(&bn, &add, &remove, ffn);
        Step::End(fs, Ok(Outcome::Done))
    }

    fn dir_gone(self, tags: NameSet) -> (r: Step)
        requires
            self@.state.knows_dir(tags@),
            !self@.state.goes_further(tags@),
        ensures
            r@ == self@.with(self@.state.without_first_dir(tags@)).rmdir_next(tags@),
    {
        let mut fs = self;
        fs.state.record_dir_gone(&tags);
        proof {
            if fs@.state.goes_further(tags@) {
                let k = choose|k: Set<Name>| #[trigger]
                    fs@.state.tagdirs.contains_key(k) && tags@.subset_of(k) && k != tags@;
                assert(self@.state.tagdirs.contains_key(k));
            }
        }
        fs.rmdir_next(tags)
    }

    /// Renames a tag everywhere.
    pub fn rename_tag(self, old_tag: &String, new_tag: &String) -> (r: Step)
        ensures
            self@.starts_rename_tag(old_tag@, new_tag@, r@),
    {
        let plan = self.state.rename_plan(old_tag.as_str(), new_tag.as_str());
        assert(is_rename_plan(pairs(plan@), self@.state.tagdirs, old_tag@, new_tag@));
        if same_text(old_tag.as_str(), new_tag.as_str()) {
            return Step::End(self, Ok(Outcome::Done));
        }
        if self.state.by_tags.contains_key(new_tag) || has_clash(&plan) {
            return refuse(self, Errno::Exist);
        }
        self.tag_look_next(old_tag.clone(), new_tag.clone(), plan, 0)
    }

    fn tag_look_next(
        self,
        old: String,
        new: String,
        plan: Vec<(FsPath, FsPath)>,
        at: usize,
    ) -> (r: Step)
        ensures
            r@ == self@.tag_look_next(old@, new@, pairs(plan@), at as int),
    {
        if at < plan.len() {
            let full = self.full_path(&plan[at].0);
            ask(self, DiskOp::Exists(full), Task::TagLookOld { old, new, plan, at })
        } else {
            self.tag_move_next(old, new, plan, 0)
        }
    }

    fn tag_move_next(
        self,
        old: String,
        new: String,
        plan: Vec<(FsPath, FsPath)>,
        at: usize,
    ) -> (r: Step)
        ensures
            r@ == self@.tag_move_next(old@, new@, pairs(plan@), at as int),
    {
        if at < plan.len() {
            let old_full = self.full_path(&plan[at].0);
            let new_full = self.full_path(&plan[at].1);
            ask(self, DiskOp::Rename(old_full, new_full), Task::TagMove { old, new, plan, at })
        } else {
            let mut fs = self;
            fs.state.record_rename_tag(&old, &new);
            Step::End(fs, Ok(Outcome::Done))
        }
    }

    fn is_tag(&self, name: &String) -> (r: bool)
        ensures
            r == self@.is_tag(name@),
    {
        self.state.by_tags.contains_key(name) && !self.state.files.contains_key(name)
    }

    /// The tags that a file has in `new_parent` when it comes from `parent`.
    fn tags_after(&self, parent: u64, bn: &String, new_parent: u64) -> (r: Option<NameSet>)
        ensures
            match r {
                Some(tags) => self@.tags_after(parent, bn@, new_parent) == Some(tags@),
                None => self@.tags_after(parent, bn@, new_parent) is None,
            },
    {
        match (self.state.inode_table.get(parent), self.state.inode_table.get(new_parent)) {
            (Some(InodeEntry::Dir(_)), Some(InodeEntry::SpecialDir(SpecialKind::All))) => {
                match self.tags_at(parent, bn) {
                    Some(old_tags) => Some(self.tags_of(bn).difference(&old_tags)),
                    None => None,
                }
            },
            _ => self.tags_at(new_parent, bn),
        }
    }

    /// The tags that a file has in `parent` when it goes to `new_parent`.
    fn tags_before(&self, parent: u64, bn: &String, new_parent: u64) -> (r: Option<NameSet>)
        ensures
            match r {
                Some(tags) => self@.tags_before(parent, bn@, new_parent) == Some(tags@),
                None => self@.tags_before(parent, bn@, new_parent) is None,
            },
    {
        match (self.state.inode_table.get(parent), self.state.inode_table.get(new_parent)) {
            (Some(InodeEntry::SpecialDir(SpecialKind::All)), Some(InodeEntry::Dir(to))) => {
                if new_parent == ROOT_INODE {
                    Some(self.tags_of(bn))
                } else {
                    Some(self.tags_of(bn).intersection(to))
                }
            },
            _ => self.tags_at(parent, bn),
        }
    }

    /// Moves `name` in `parent` to `new_name` in `new_parent`. A tag is renamed
    /// everywhere. A file is renamed and gets the tags of its new directory in
    /// place of those of its old one; coming from `_all` it keeps what it has.
    pub fn rename(self, parent: u64, name: &[u8], new_parent: u64, new_name: &[u8]) -> (r: Step)
        requires
            self@.state.inodes.next < u64::MAX,
        ensures
            self@.starts_rename(parent, text_of(name@), new_parent, text_of(new_name@), r@),
    {
        let old_str = text(name);
        let new_str = text(new_name);
        let old_tags = match self.tags_before(parent, &old_str, new_parent) {
            Some(tags) => tags,
            None => {
                return refuse(self, Errno::NoEnt);
            },
        };
        let new_tags = match self.tags_after(parent, &old_str, new_parent) {
            Some(tags) => tags,
            None => {
                return refuse(self, Errno::NoEnt);
            },
        };
        if self.is_tag(&old_str) {
            return self.rename_tag(&old_str, &new_str);
        }
        if !self.state.files.contains_key(&old_str) {
            return refuse(self, Errno::NoEnt);
        }
        let add = new_tags.difference(&old_tags);
        let remove = old_tags.difference(&new_tags);
        if same_text(old_str.as_str(), new_str.as_str()) {
            self.retag_if_any(old_str, add, remove)
        } else {
            self.rename_file_first(old_str, new_str, add, remove)
        }
    }
}

impl Pending {
    /// Goes on with what came of the operation.
    pub fn resume(self, reply: Reply) -> (r: Step)
        ensures
            r@ == self@.fs.resumed(self@.task, reply),
    {
        proof {
            use_type_invariant(&self);
        }
        let Pending { fs, task } = self;
        match task {
            Task::Dir { tags } => match reply {
                Ok(_) => fs.dir_done(&tags),
                Err(c) => refuse(fs, code_of(c)),
            },
            Task::Mkdir { tags } => match reply {
                Ok(_) => fs.mkdir_done(&tags),
                Err(c) => refuse(fs, code_of(c)),
            },
            Task::CreateDir { bn, tags } => match reply {
                Ok(_) => fs.create_placed(bn, tags),
                Err(c) => refuse(fs, code_of(c)),
            },
            Task::CreateFile { bn, tags, ffn } => match reply {
                Ok(_) => {
                    let mut fs = fs;
                    let ino = fs.state.record_create(&bn, tags, ffn);
                    Step::End(fs, Ok(Outcome::Inode(ino)))
                },
                Err(c) => refuse(fs, code_of(c)),
            },
            Task::Unlink { bn } => match reply {
                Ok(_) => {
                    let mut fs = fs;
                    fs.state.record_unlink(&bn);
                    Step::End(fs, Ok(Outcome::Done))
                },
                Err(c) => refuse(fs, code_of(c)),
            },
            Task::RmdirLook { tags } => {
                if was_found(&reply) {
                    let full = fs.full_path(&fs.state.dir_for_tags(&tags));
                    ask(fs, DiskOp::RemoveDir(full), Task::RmdirDrop { tags })
                } else {
                    fs.dir_gone(tags)
                }
            },
            Task::RmdirDrop { tags } => match reply {
                Ok(_) => fs.dir_gone(tags),
                Err(c) => refuse(fs, code_of(c)),
            },
            Task::RenameLook { old_bn, new_bn, add, remove } => {
                if was_found(&reply) {
                    refuse(fs, Errno::Exist)
                } else {
                    let new_full = fs.full_path(&fs.state.renamed_ffn(&old_bn, &new_bn));
                    match fs.resolve_file_path(&old_bn) {
                        Ok(old_full) => ask(
                            fs,
                            DiskOp::Rename(old_full, new_full),
                            Task::RenameMove { old_bn, new_bn, add, remove },
                        ),
                        Err(e) => refuse(fs, e),
                    }
                }
            },
            Task::RenameMove { old_bn, new_bn, add, remove } => match reply {
                Ok(_) => {
                    let mut fs = fs;
                    fs.state.record_rename_file(&old_bn, &new_bn);
                    fs.retag_if_any(new_bn, add, remove)
                },
                Err(c) => refuse(fs, code_of(c)),
            },
            Task::RetagDir { bn, add, remove } => match reply {
                Ok(_) => fs.retag_placed(bn, add, remove),
                Err(c) => refuse(fs, code_of(c)),
            },
            Task::RetagLook { bn, add, remove, ffn } => {
                if was_found(&reply) {
                    refuse(fs, Errno::Exist)
                } else {
                    let new_full = fs.full_path(&ffn);
                    match fs.resolve_file_path(&bn) {
                        Ok(old_full) => ask(
                            fs,
                            DiskOp::Rename(old_full, new_full),
                            Task::RetagMove { bn, add, remove, ffn },
                        ),
                        Err(e) => refuse(fs, e),
                    }
                }
            },
            Task::RetagMove { bn, add, remove, ffn } => match reply {
                Ok(_) => fs.retag_done(bn, add, remove, ffn),
                Err(c) => refuse(fs, code_of(c)),
            },
            Task::TagLookOld { old, new, plan, at } => {
                assert(at < plan.len());
                if was_found(&reply) {
                    let full = fs.full_path(&plan[at].1);
                    ask(fs, DiskOp::Exists(full), Task::TagLookNew { old, new, plan, at })
                } else {
                    let mut plan = plan;
                    let ghost was = pairs(plan@);
                    let _ = plan.remove(at);
                    assert(pairs(plan@) =~= was.remove(at as int));
                    fs.tag_look_next(old, new, plan, at)
                }
            },
            Task::TagLookNew { old, new, plan, at } => {
                assert(at < plan.len());
                if was_found(&reply) {
                    refuse(fs, Errno::Exist)
                } else {
                    fs.tag_look_next(old, new, plan, at + 1)
                }
            },
            Task::TagMove { old, new, plan, at } => {
                assert(at < plan.len());
                match reply {
                    Ok(_) => fs.tag_move_next(old, new, plan, at + 1),
                    Err(c) => {
                        let mut fs = fs;
                        fs.state.record_moved_dirs(&plan, at);
                        refuse(fs, code_of(c))
                    },
                }
            },
        }
    }
}

} // verus!
