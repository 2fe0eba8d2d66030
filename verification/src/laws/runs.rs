//! How requests come out.
use vstd::prelude::*;
use vstd::utf8::*;

use crate::inode::NodeView;
use crate::laws::filed::{
    all_dirs, filed, filed_step, lemma_dirs_finite, lemma_point_plain, requests_stay_filed,
};
use crate::laws::plain::{plain, plain_path};
use crate::laws::requests::{
    requests_come_to_an_end, requests_go_on_well, steps_left, under_way,
};
use crate::names::{Name, Path};
use crate::ops::{OpView, OutcomeView, Reply, StepView, TaskView};
use crate::state::{
    clashes, is_rename_plan, rename_point, renamed_dir, spelled, tagged_dir, FsView,
};
use crate::tagfs::{Errno, TagView, SPECIAL_ALL_NAME, SPECIAL_UNTAGGED_NAME};
use crate::text::text_of;

verus! {

/// How far a request is after some operations, by what came of them.
pub open spec fn run(step: StepView, replies: Seq<Reply>) -> StepView
    decreases replies.len(),
{
    if replies.len() == 0 {
        step
    } else {
        match step {
            StepView::Ask(_, fs, task) => run(fs.resumed(task, replies[0]), replies.drop_first()),
            StepView::End(_, _) => step,
        }
    }
}

/// The operations that a request asks for meanwhile.
pub open spec fn asked_for(step: StepView, replies: Seq<Reply>) -> Seq<OpView>
    decreases replies.len(),
{
    match step {
        StepView::Ask(op, fs, task) => if replies.len() == 0 {
            seq![op]
        } else {
            seq![op] + asked_for(fs.resumed(task, replies[0]), replies.drop_first())
        },
        StepView::End(_, _) => Seq::empty(),
    }
}

/// An inode stands for the directory of a set of tags.
pub open spec fn is_tag_dir(fs: TagView, ino: u64) -> bool {
    fs.node(ino) matches Some(NodeView::Dir(_))
}

/// An inode stands for `_all` or `_untagged`.
pub open spec fn is_flat_dir(fs: TagView, ino: u64) -> bool {
    fs.node(ino) matches Some(NodeView::SpecialDir(_))
}

/// A request is refused at once, with this error and with nothing changed.
pub open spec fn refused(fs: TagView, step: StepView, e: Errno) -> bool {
    step == StepView::End(fs, Err::<OutcomeView, Errno>(e))
}

/// A request is not refused at once: it asks for an operation, or it is done.
pub open spec fn accepted(step: StepView) -> bool {
    step matches StepView::End(_, result) ==> result is Ok
}

/// A tag can be made in every tag directory, and nowhere else.
pub proof fn tags_can_be_made_in_tag_directories(fs: TagView, parent: u64, name: Name)
    ensures
        is_tag_dir(fs, parent) ==> accepted(fs.mkdir_step(parent, name)),
        is_flat_dir(fs, parent) ==> refused(fs, fs.mkdir_step(parent, name), Errno::Perm),
        !is_tag_dir(fs, parent) && !is_flat_dir(fs, parent) ==> refused(
            fs,
            fs.mkdir_step(parent, name),
            Errno::NoEnt,
        ),
{
}

/// A file can be made in every tag directory under a name that is free, and in no
/// other way.
pub proof fn files_can_be_made_in_tag_directories(fs: TagView, parent: u64, bn: Name)
    ensures
        ({
            let step = fs.create_step(parent, bn);
            let known = fs.state.files.contains_key(bn);
            &&& is_tag_dir(fs, parent) && !known ==> accepted(step)
            &&& (is_tag_dir(fs, parent) || is_flat_dir(fs, parent)) && known ==> refused(
                fs,
                step,
                Errno::Exist,
            )
            &&& is_flat_dir(fs, parent) && !known ==> refused(fs, step, Errno::Perm)
            &&& !is_tag_dir(fs, parent) && !is_flat_dir(fs, parent) ==> refused(
                fs,
                step,
                Errno::NoEnt,
            )
        }),
{
}

/// Every known file can be deleted, and none that is not.
pub proof fn known_files_can_be_deleted(fs: TagView, bn: Name)
    ensures
        fs.state.files.contains_key(bn) ==> accepted(fs.unlink_step(bn)),
        !fs.state.files.contains_key(bn) ==> refused(fs, fs.unlink_step(bn), Errno::NoEnt),
{
}

/// Every tag can be removed from a tag directory, but for one that occurs there
/// together with a further tag.
pub proof fn tags_without_further_ones_can_be_removed(
    fs: TagView,
    parent: u64,
    tags: Set<Name>,
    name: Name,
)
    requires
        fs.node(parent) == Some(NodeView::Dir(tags)),
        name != SPECIAL_ALL_NAME@,
        name != SPECIAL_UNTAGGED_NAME@,
    ensures
        ({
            let step = fs.rmdir_step(parent, name);
            let further = exists|k: Set<Name>, t: Name|
                #![trigger fs.state.tagdirs.contains_key(k), k.contains(t)]
                fs.state.tagdirs.contains_key(k) && tags.subset_of(k) && k.contains(name)
                    && k.contains(t) && !tags.contains(t) && t != name;
            &&& further ==> refused(fs, step, Errno::NotEmpty)
            &&& !further ==> accepted(step)
        }),
{
    let s = fs.state;
    let both = tags.insert(name);
    if s.goes_further(both) {
        let k = choose|k: Set<Name>| #[trigger]
            s.tagdirs.contains_key(k) && both.subset_of(k) && k != both;
        assert(both.contains(name));
        if forall|t: Name| k.contains(t) ==> both.contains(t) {
            assert(k =~= both);
        }
        let t = choose|t: Name| k.contains(t) && !both.contains(t);
        assert(s.tagdirs.contains_key(k) && k.contains(t));
    }
    if exists|k: Set<Name>, t: Name|
        #![trigger s.tagdirs.contains_key(k), k.contains(t)]
        s.tagdirs.contains_key(k) && tags.subset_of(k) && k.contains(name) && k.contains(t)
            && !tags.contains(t) && t != name {
        let (k, t) = choose|k: Set<Name>, t: Name|
            #![trigger s.tagdirs.contains_key(k), k.contains(t)]
            s.tagdirs.contains_key(k) && tags.subset_of(k) && k.contains(name) && k.contains(t)
                && !tags.contains(t) && t != name;
        assert(s.tagdirs.contains_key(k) && both.subset_of(k));
        assert(!both.contains(t));
    }
}

/// The special directories cannot be removed, and nothing can but from a tag
/// directory.
pub proof fn only_tags_can_be_removed(fs: TagView, parent: u64, name: Name)
    ensures
        name == SPECIAL_ALL_NAME@ || name == SPECIAL_UNTAGGED_NAME@ ==> refused(
            fs,
            fs.rmdir_step(parent, name),
            Errno::Perm,
        ),
        name != SPECIAL_ALL_NAME@ && name != SPECIAL_UNTAGGED_NAME@ && !is_tag_dir(fs, parent)
            ==> refused(fs, fs.rmdir_step(parent, name), Errno::NoEnt),
{
}

/// Every known file can be renamed to a name that no file has.
pub proof fn known_files_can_be_renamed(
    fs: TagView,
    old: Name,
    new: Name,
    add: Set<Name>,
    remove: Set<Name>,
)
    ensures
        ({
            let step = fs.rename_file_step(old, new, add, remove);
            let files = fs.state.files;
            &&& files.contains_key(new) ==> refused(fs, step, Errno::Exist)
            &&& !files.contains_key(new) && !files.contains_key(old) ==> refused(
                fs,
                step,
                Errno::NoEnt,
            )
            &&& !files.contains_key(new) && files.contains_key(old) ==> accepted(step)
        }),
{
}

/// The tags of every known file can be changed.
pub proof fn known_files_can_be_retagged(fs: TagView, bn: Name, add: Set<Name>, remove: Set<Name>)
    ensures
        fs.state.files.contains_key(bn) ==> accepted(fs.retag_step(bn, add, remove)),
        !fs.state.files.contains_key(bn) ==> refused(
            fs,
            fs.retag_step(bn, add, remove),
            Errno::NoEnt,
        ),
{
}

/// Two names in one directory differ and yet read as the tag.
pub open spec fn read_alike(s: FsView, tag: Name) -> bool {
    exists|p: Path, q: Path, i: int, j: int| #[trigger] side_by_side(s, tag, p, q, i, j)
}

/// Component `i` of `p` and component `j` of `q` are such names.
pub open spec fn side_by_side(s: FsView, tag: Name, p: Path, q: Path, i: int, j: int) -> bool {
    &&& all_dirs(s.tagdirs).contains(p) && all_dirs(s.tagdirs).contains(q)
    &&& 0 <= i < p.len() && 0 <= j < q.len()
    &&& text_of(p[i]) == tag && text_of(q[j]) == tag
    &&& p.take(i) == q.take(j)
    &&& p[i] != q[j]
}

/// Every tag can be renamed to one that is not known, unless two directories side
/// by side read as the tag.
pub proof fn tags_can_be_renamed(fs: TagView, old: Name, new: Name, step: StepView)
    requires
        filed(fs.state),
        plain(new),
        fs.starts_rename_tag(old, new, step),
    ensures
        old == new ==> step == StepView::End(fs, Ok(OutcomeView::Done)),
        old != new && fs.state.by_tags.contains_key(new) ==> refused(fs, step, Errno::Exist),
        old != new && !fs.state.by_tags.contains_key(new) ==> accepted(step) || (refused(
            fs,
            step,
            Errno::Exist,
        ) && read_alike(fs.state, old)),
{
    let s = fs.state;
    let plan = choose|plan: Seq<(Path, Path)>| #[trigger]
        is_rename_plan(plan, s.tagdirs, old, new) && step == fs.rename_tag_step(old, new, plan);
    if clashes(plan) {
        let (a, b) = choose|a: int, b: int|
            0 <= a < b < plan.len() && (#[trigger] plan[a]).1 == (#[trigger] plan[b]).1;
        assert(plan.contains(plan[a]) && plan.contains(plan[b]));
        let p = choose|p: Path| #[trigger]
            tagged_dir(s.tagdirs, old, p) && rename_point(p, old, new, plan[a]);
        let q = choose|q: Path| #[trigger]
            tagged_dir(s.tagdirs, old, q) && rename_point(q, old, new, plan[b]);
        lemma_tagged_known(s, old, p);
        lemma_tagged_known(s, old, q);
        let i = choose|i: int| #[trigger]
            spelled(p, old, i) && plan[a] == renamed_dir(p, i, new);
        let j = choose|j: int| #[trigger]
            spelled(q, old, j) && plan[b] == renamed_dir(q, j, new);
        lemma_point_plain(p, old, new, i);
        lemma_point_plain(q, old, new, j);
        let e = encode_utf8(new);
        assert(p.take(i).push(e).drop_last() =~= p.take(i));
        assert(q.take(j).push(e).drop_last() =~= q.take(j));
        assert(p.take(i) == q.take(j));
        if p[i] == q[j] {
            assert(p.take(i + 1) =~= p.take(i).push(p[i]));
            assert(q.take(j + 1) =~= q.take(j).push(q[j]));
            assert(plan[a] == plan[b]);
        }
        assert(side_by_side(s, old, p, q, i, j));
    }
}

pub(crate) proof fn lemma_tagged_known(s: FsView, tag: Name, p: Path)
    requires
        filed(s),
        tagged_dir(s.tagdirs, tag, p),
    ensures
        all_dirs(s.tagdirs).contains(p),
        plain_path(p),
{
    let k = choose|k: Set<Name>| #[trigger]
        s.tagdirs.contains_key(k) && k.contains(tag) && s.tagdirs[k].contains(p);
    assert(s.tagdirs[k].contains(p));
}

/// A move from one directory to another renames the tag of that name, wherever in
/// the tree the two are, moves the file of that name, or is refused because there
/// is neither.
pub proof fn moves_take_tags_and_files(
    fs: TagView,
    parent: u64,
    name: Name,
    new_parent: u64,
    new_name: Name,
    step: StepView,
)
    requires
        fs.starts_rename(parent, name, new_parent, new_name, step),
    ensures
        ({
            let from_dir = is_tag_dir(fs, parent) || is_flat_dir(fs, parent);
            let to_dir = is_tag_dir(fs, new_parent) || is_flat_dir(fs, new_parent);
            let file = fs.state.files.contains_key(name);
            let tag = fs.state.by_tags.contains_key(name) && !file;
            &&& !(from_dir && to_dir) ==> refused(fs, step, Errno::NoEnt)
            &&& from_dir && to_dir && tag ==> fs.starts_rename_tag(name, new_name, step)
            &&& from_dir && to_dir && !tag && !file ==> refused(fs, step, Errno::NoEnt)
            &&& from_dir && to_dir && file && (name == new_name
                || !fs.state.files.contains_key(new_name)) ==> accepted(step)
            &&& from_dir && to_dir && file && name != new_name && fs.state.files.contains_key(
                new_name,
            ) ==> refused(fs, step, Errno::Exist)
        }),
{
}

/// The task waits to be told whether there is anything at a place.
pub open spec fn is_look(task: TaskView) -> bool {
    task is RmdirLook || task is RenameLook || task is RetagLook || task is TagLookOld
        || task is TagLookNew
}

/// A look that fails counts as one that finds nothing. Of any other operation it
/// only matters whether it failed.
pub proof fn failed_looks_find_nothing(fs: TagView, task: TaskView, code: Option<i32>)
    ensures
        is_look(task) ==> fs.resumed(task, Err(code)) == fs.resumed(task, Ok(false)),
        !is_look(task) ==> fs.resumed(task, Ok(true)) == fs.resumed(task, Ok(false)),
{
}

/// What came of an operation is why the request fails: the system failed with
/// that error, or the new place of something is taken.
pub open spec fn is_cause(task: TaskView, reply: Reply, e: Errno) -> bool {
    match reply {
        Err(Some(code)) => e == Errno::Os(code),
        Err(None) => e == Errno::Io,
        Ok(there) => there && e == Errno::Exist && (task is RenameLook || task is RetagLook
            || task is TagLookNew),
    }
}

/// A request that is under way fails only for what came of an operation.
pub proof fn only_the_disk_makes_requests_fail(
    fs: TagView,
    task: TaskView,
    reply: Reply,
    after: TagView,
    e: Errno,
)
    requires
        task.fits(fs.state),
        fs.resumed(task, reply) == StepView::End(after, Err::<OutcomeView, Errno>(e)),
    ensures
        is_cause(task, reply, e),
{
}

/// One of the operations of a run is why it failed.
pub open spec fn has_cause(step: StepView, replies: Seq<Reply>, e: Errno) -> bool
    decreases replies.len(),
{
    if replies.len() == 0 {
        false
    } else {
        match step {
            StepView::Ask(_, fs, task) => is_cause(task, replies[0], e) || has_cause(
                fs.resumed(task, replies[0]),
                replies.drop_first(),
                e,
            ),
            StepView::End(_, _) => false,
        }
    }
}

/// A request that was accepted and fails in the end does so for what came of one
/// of its operations. Where all of them succeed and no new place is taken, it
/// succeeds.
pub proof fn failed_runs_have_a_cause(
    step: StepView,
    replies: Seq<Reply>,
    after: TagView,
    e: Errno,
)
    requires
        under_way(step),
        accepted(step),
        run(step, replies) == StepView::End(after, Err::<OutcomeView, Errno>(e)),
    ensures
        has_cause(step, replies, e),
    decreases replies.len(),
{
    if replies.len() > 0 {
        if let StepView::Ask(_, fs, task) = step {
            let next = fs.resumed(task, replies[0]);
            requests_go_on_well(fs, task, replies[0]);
            if accepted(next) {
                failed_runs_have_a_cause(next, replies.drop_first(), after, e);
            } else if let StepView::End(at, Err(why)) = next {
                only_the_disk_makes_requests_fail(fs, task, replies[0], at, why);
                assert(run(next, replies.drop_first()) == next);
            }
        }
    }
}

/// A request that was accepted succeeds in the end, unless one of its operations is
/// a cause to fail.
pub proof fn runs_without_a_cause_succeed(
    step: StepView,
    replies: Seq<Reply>,
    after: TagView,
    result: Result<OutcomeView, Errno>,
)
    requires
        under_way(step),
        accepted(step),
        run(step, replies) == StepView::End(after, result),
        forall|e: Errno| !#[trigger] has_cause(step, replies, e),
    ensures
        result is Ok,
{
    if let Err(e) = result {
        failed_runs_have_a_cause(step, replies, after, e);
    }
}

/// A run comes to an end, whatever comes of its operations.
pub proof fn runs_come_to_an_end(step: StepView, replies: Seq<Reply>)
    requires
        under_way(step),
        filed_step(step),
        step matches StepView::Ask(_, fs, task) ==> replies.len() >= steps_left(fs.state, task),
    ensures
        run(step, replies) is End,
    decreases replies.len(),
{
    if let StepView::Ask(_, fs, task) = step {
        assert forall|k: Set<Name>| #[trigger]
            fs.state.tagdirs.contains_key(k) implies fs.state.tagdirs[k].finite() by {
            lemma_dirs_finite(fs.state.tagdirs, k);
        }
        if replies.len() == 0 {
            requests_come_to_an_end(fs, task, Ok(true));
        } else {
            requests_come_to_an_end(fs, task, replies[0]);
            requests_go_on_well(fs, task, replies[0]);
            requests_stay_filed(fs, task, replies[0]);
            runs_come_to_an_end(fs.resumed(task, replies[0]), replies.drop_first());
        }
    }
}

} // verus!
