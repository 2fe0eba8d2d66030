//! The requests that change the source tree, as one kind of thing.
use vstd::prelude::*;

use crate::inode::NodeView;
use crate::names::Name;
use crate::ops::{Reply, StepView, TaskView};
use crate::state::{first_path, lemma_first_path, FsView};
use crate::tagfs::{Errno, TagView};

verus! {

/// A request.
pub enum Request {
    Dir { tags: Set<Name> },
    Mkdir { parent: u64, name: Name },
    Create { parent: u64, bn: Name },
    Unlink { bn: Name },
    Rmdir { parent: u64, name: Name },
    RenameFile { old_bn: Name, new_bn: Name },
    Retag { bn: Name, add: Set<Name>, remove: Set<Name> },
    RenameTag { old: Name, new: Name },
    Rename { parent: u64, name: Name, new_parent: u64, new_name: Name },
}

/// `step` is the first step of a request.
pub open spec fn starts(fs: TagView, request: Request, step: StepView) -> bool {
    match request {
        Request::Dir { tags } => step == fs.dir_step(tags),
        Request::Mkdir { parent, name } => step == fs.mkdir_step(parent, name),
        Request::Create { parent, bn } => step == fs.create_step(parent, bn),
        Request::Unlink { bn } => step == fs.unlink_step(bn),
        Request::Rmdir { parent, name } => step == fs.rmdir_step(parent, name),
        Request::RenameFile { old_bn, new_bn } => step == fs.rename_file_step(
            old_bn,
            new_bn,
            Set::empty(),
            Set::empty(),
        ),
        Request::Retag { bn, add, remove } => step == fs.retag_step(bn, add, remove),
        Request::RenameTag { old, new } => fs.starts_rename_tag(old, new, step),
        Request::Rename { parent, name, new_parent, new_name } => fs.starts_rename(
            parent,
            name,
            new_parent,
            new_name,
            step,
        ),
    }
}

/// What a task found out before it asked still holds: the name that it is about
/// to give is free, and it does not remove the root.
pub open spec fn prepared(s: FsView, task: TaskView) -> bool {
    match task {
        TaskView::CreateDir { bn, .. } => !s.files.contains_key(bn),
        TaskView::CreateFile { bn, .. } => !s.files.contains_key(bn),
        TaskView::RenameLook { new_bn, .. } => !s.files.contains_key(new_bn),
        TaskView::RenameMove { new_bn, .. } => !s.files.contains_key(new_bn),
        TaskView::RmdirLook { tags, .. } => tags != Set::<Name>::empty(),
        TaskView::RmdirDrop { tags, .. } => tags != Set::<Name>::empty(),
        TaskView::TagLookOld { old, new, .. } => old != new && !s.by_tags.contains_key(new),
        TaskView::TagLookNew { old, new, .. } => old != new && !s.by_tags.contains_key(new),
        TaskView::TagMove { old, new, .. } => old != new && !s.by_tags.contains_key(new),
        _ => true,
    }
}

/// A request that is under way can go on.
pub open spec fn under_way(step: StepView) -> bool {
    step matches StepView::Ask(_, fs, task) ==> task.fits(fs.state) && prepared(fs.state, task)
}

/// Every request that starts can go on.
pub proof fn requests_start_well(fs: TagView, request: Request, step: StepView)
    requires
        fs.state.inodes.next < u64::MAX,
        starts(fs, request, step),
    ensures
        under_way(step),
{
    if let Request::Rmdir { parent, name } = request {
        if let Some(NodeView::Dir(tags)) = fs.node(parent) {
            assert(tags.insert(name).contains(name));
        }
    }
}

/// Every request that can go on can still do so after an operation, whatever came
/// of it.
pub proof fn requests_go_on_well(fs: TagView, task: TaskView, reply: Reply)
    requires
        task.fits(fs.state),
        prepared(fs.state, task),
    ensures
        under_way(fs.resumed(task, reply)),
{
    if task is RmdirLook || task is RmdirDrop {
        let tags = match task {
            TaskView::RmdirLook { tags } => tags,
            TaskView::RmdirDrop { tags } => tags,
            _ => Set::empty(),
        };
        lemma_dir_gone_no_further(fs.state, tags);
    }
}

/// Removing a directory of a set of tags leaves the sets of tags as they are.
proof fn lemma_dir_gone_no_further(s: FsView, tags: Set<Name>)
    requires
        s.knows_dir(tags),
        !s.goes_further(tags),
    ensures
        !s.without_first_dir(tags).goes_further(tags),
{
    let r = s.without_first_dir(tags);
    if r.goes_further(tags) {
        let k = choose|k: Set<Name>| #[trigger]
            r.tagdirs.contains_key(k) && tags.subset_of(k) && k != tags;
        assert(s.tagdirs.contains_key(k));
    }
}

/// A request that is refused at once changes nothing.
pub proof fn refused_requests_change_nothing(fs: TagView, request: Request, step: StepView)
    requires
        starts(fs, request, step),
    ensures
        step matches StepView::End(after, Err(_)) ==> after == fs,
{
}

/// A request that an operation makes fail leaves the filesystem as it was before
/// that operation. Where directories of a tag were renamed by then, their new
/// places are noted.
pub proof fn failed_requests_change_nothing_more(
    fs: TagView,
    task: TaskView,
    reply: Reply,
    after: TagView,
    e: Errno,
)
    requires
        task.fits(fs.state),
        fs.resumed(task, reply) == StepView::End(after, Err(e)),
    ensures
        after == (match task {
            TaskView::TagMove { plan, at, .. } => fs.with(
                fs.state.with_moved_dirs(plan.take(at)),
            ),
            _ => fs,
        }),
        task matches TaskView::TagMove { at, .. } ==> (at == 0 ==> after == fs),
{
    if let TaskView::TagMove { plan, at, .. } = task {
        if at == 0 {
            assert(plan.take(at) =~= Seq::empty());
        }
    }
}

/// How many operations a task asks for at most, the one under way counted.
pub open spec fn steps_left(s: FsView, task: TaskView) -> int {
    match task {
        TaskView::Dir { .. } => 1,
        TaskView::Mkdir { .. } => 1,
        TaskView::CreateDir { .. } => 2,
        TaskView::CreateFile { .. } => 1,
        TaskView::Unlink { .. } => 1,
        TaskView::RmdirLook { tags } => 2 * s.tagdirs[tags].len() as int,
        TaskView::RmdirDrop { tags } => 2 * s.tagdirs[tags].len() as int - 1,
        TaskView::RenameLook { .. } => 5,
        TaskView::RenameMove { .. } => 4,
        TaskView::RetagDir { .. } => 3,
        TaskView::RetagLook { .. } => 2,
        TaskView::RetagMove { .. } => 1,
        TaskView::TagLookOld { plan, at, .. } => 3 * plan.len() - 2 * at,
        TaskView::TagLookNew { plan, at, .. } => 3 * plan.len() - 2 * at - 1,
        TaskView::TagMove { plan, at, .. } => plan.len() - at,
    }
}

/// Every request comes to an end, whatever comes of its operations.
pub proof fn requests_come_to_an_end(fs: TagView, task: TaskView, reply: Reply)
    requires
        task.fits(fs.state),
        forall|k: Set<Name>| #[trigger]
            fs.state.tagdirs.contains_key(k) ==> fs.state.tagdirs[k].finite(),
    ensures
        steps_left(fs.state, task) > 0,
        fs.resumed(task, reply) matches StepView::Ask(_, at, next) ==> steps_left(at.state, next)
            < steps_left(fs.state, task),
{
    if task is RmdirLook || task is RmdirDrop {
        let tags = match task {
            TaskView::RmdirLook { tags } => tags,
            TaskView::RmdirDrop { tags } => tags,
            _ => Set::empty(),
        };
        let dirs = fs.state.tagdirs[tags];
        lemma_first_path(dirs);
        assert(dirs.remove(first_path(dirs)).len() == dirs.len() - 1);
    }
}

} // verus!
