//! What requests that fail leave behind.
use vstd::prelude::*;
use vstd::utf8::*;

use crate::inode::NodeView;
use crate::laws::filed::filed;
use crate::laws::outcomes::{other_dirs_kept, other_files_kept, renames, tags_kept};
use crate::laws::plain::{lemma_placed, lemma_plain_dir, plain};
use crate::laws::runs::run;
use crate::names::{Name, Path};
use crate::ops::{OutcomeView, Reply, StepView, TaskView};
use crate::state::FsView;
use crate::tagfs::{Errno, TagView};

verus! {

/// A tag that could not be made, a directory that could not be had and a file that
/// could not be deleted leave everything as it was.
pub proof fn nothing_changes_when_one_operation_fails(
    fs: TagView,
    parent: u64,
    name: Name,
    tags: Set<Name>,
    replies: Seq<Reply>,
)
    ensures
        run(fs.mkdir_step(parent, name), replies) matches StepView::End(after, Err(_)) ==> after
            == fs,
        run(fs.unlink_step(name), replies) matches StepView::End(after, Err(_)) ==> after == fs,
        run(fs.dir_step(tags), replies) matches StepView::End(after, Err(_)) ==> after == fs,
{
    reveal_with_fuel(run, 3);
}

/// A file that could not be made is not known. At most there is a directory for it.
pub proof fn files_that_could_not_be_made_are_not_known(
    fs: TagView,
    parent: u64,
    bn: Name,
    replies: Seq<Reply>,
    after: TagView,
    e: Errno,
)
    requires
        run(fs.create_step(parent, bn), replies) == StepView::End(
            after,
            Err::<OutcomeView, Errno>(e),
        ),
    ensures
        after.state.files == fs.state.files,
        after.state.inodes == fs.state.inodes,
        after.root == fs.root,
        after == fs || (fs.node(parent) is Some && other_dirs_kept(
            fs,
            after,
            fs.tags_at(parent, bn).unwrap(),
        ) && tags_kept(fs, after, fs.tags_at(parent, bn).unwrap())),
{
    reveal_with_fuel(run, 4);
}

/// A file whose tags could not be changed has those that it had, and is where it
/// was. At most there is a directory for it.
pub proof fn files_that_could_not_be_retagged_are_the_same(
    fs: TagView,
    bn: Name,
    add: Set<Name>,
    remove: Set<Name>,
    replies: Seq<Reply>,
    after: TagView,
    e: Errno,
)
    requires
        run(fs.retag_step(bn, add, remove), replies) == StepView::End(
            after,
            Err::<OutcomeView, Errno>(e),
        ),
    ensures
        after.state.files == fs.state.files,
        after.state.inodes == fs.state.inodes,
        after.root == fs.root,
        after == fs || other_dirs_kept(
            fs,
            after,
            fs.state.files[bn].tags.union(add).difference(remove),
        ),
{
    reveal_with_fuel(run, 5);
}

/// A file that could not be renamed and retagged is the same, unless the renaming
/// succeeded and only the change of its tags failed.
pub proof fn files_that_could_not_be_renamed_are_the_same(
    fs: TagView,
    old: Name,
    new: Name,
    add: Set<Name>,
    remove: Set<Name>,
    replies: Seq<Reply>,
    after: TagView,
    e: Errno,
)
    requires
        filed(fs.state),
        plain(new),
        run(fs.rename_file_step(old, new, add, remove), replies) == StepView::End(
            after,
            Err::<OutcomeView, Errno>(e),
        ),
    ensures
        after == fs || {
            &&& replies.len() > 2 && replies[1] is Ok
            &&& add != Set::<Name>::empty() || remove != Set::<Name>::empty()
            &&& fs.state.files.contains_key(old) && !fs.state.files.contains_key(new)
            &&& after.state.files.dom() == fs.state.files.dom().remove(old).insert(new)
            &&& after.state.files[new].tags == fs.state.files[old].tags
            &&& after.state.files[new].ffn == fs.state.files[old].ffn.drop_last().push(
                encode_utf8(new),
            )
            &&& other_files_kept(fs, after, old, new)
            &&& after.root == fs.root
        },
{
    reveal_with_fuel(run, 3);
    let s = fs.state;
    if replies.len() >= 2 && s.files.contains_key(old) && !s.files.contains_key(new) {
        lemma_plain_dir(s.files[old].ffn);
        lemma_placed(s.files[old].ffn.drop_last(), new);
        let mid = fs.with(s.with_renamed_file(old, new));
        let next = mid.retag_if_any(new, add, remove);
        let rest = replies.drop_first().drop_first();
        assert(replies.drop_first()[0] == replies[1]);
        if replies[0] != Ok::<bool, Option<i32>>(true) && replies[1] is Ok {
            assert(run(next, rest) == StepView::End(after, Err::<OutcomeView, Errno>(e)));
            if next is End {
                assert(run(next, rest) == next);
            }
            files_that_could_not_be_retagged_are_the_same(mid, new, add, remove, rest, after, e);
            assert(after.state.files.dom() =~= s.files.dom().remove(old).insert(new));
        }
    }
}

/// The request is one to remove the directories of the tags.
spec fn removes(fs: TagView, tags: Set<Name>, step: StepView) -> bool {
    match step {
        StepView::Ask(_, at, TaskView::RmdirLook { tags: t }) => at == fs && t == tags
            && fs.state.knows_dir(tags),
        StepView::Ask(_, at, TaskView::RmdirDrop { tags: t }) => at == fs && t == tags
            && fs.state.knows_dir(tags),
        StepView::Ask(_, _, _) => false,
        StepView::End(_, result) => result is Ok,
    }
}

/// Only directories of the tags are missing from the index.
pub open spec fn only_dirs_dropped(fs: TagView, after: TagView, tags: Set<Name>) -> bool {
    &&& after.root == fs.root
    &&& after.state.files == fs.state.files
    &&& after.state.by_tags == fs.state.by_tags
    &&& after.state.inodes == fs.state.inodes
    &&& after.state.tagdirs.dom() == fs.state.tagdirs.dom()
    &&& other_dirs_kept(fs, after, tags)
    &&& forall|p: Path| #[trigger]
        after.state.tagdirs[tags].contains(p) ==> fs.state.tagdirs[tags].contains(p)
}

proof fn lemma_rmdir_fails(
    fs: TagView,
    tags: Set<Name>,
    step: StepView,
    replies: Seq<Reply>,
    after: TagView,
    e: Errno,
)
    requires
        removes(fs, tags, step),
        run(step, replies) == StepView::End(after, Err::<OutcomeView, Errno>(e)),
    ensures
        only_dirs_dropped(fs, after, tags),
    decreases replies.len(),
{
    if replies.len() > 0 {
        if let StepView::Ask(_, at, task) = step {
            let next = at.resumed(task, replies[0]);
            let less = fs.with(fs.state.without_first_dir(tags));
            assert(less.state.tagdirs.dom() =~= fs.state.tagdirs.dom());
            assert(only_dirs_dropped(fs, fs, tags));
            if next is End {
                assert(run(next, replies.drop_first()) == next);
            } else if next == less.rmdir_next(tags) {
                lemma_rmdir_fails(less, tags, next, replies.drop_first(), after, e);
                assert(after.state.tagdirs.dom() =~= fs.state.tagdirs.dom());
                assert forall|k: Set<Name>| #[trigger]
                    after.state.tagdirs.contains_key(k) && k != tags
                        || fs.state.tagdirs.contains_key(k) && k
                        != tags implies fs.state.tagdirs.contains_key(k)
                    && after.state.tagdirs.contains_key(k) && after.state.tagdirs[k]
                    == fs.state.tagdirs[k] by {
                    assert(less.state.tagdirs.contains_key(k) == fs.state.tagdirs.contains_key(k));
                }
            } else {
                lemma_rmdir_fails(fs, tags, next, replies.drop_first(), after, e);
            }
        }
    }
}

/// A tag that could not be removed leaves everything as it was, but for directories
/// of the tag that could be removed.
pub proof fn tags_that_could_not_be_removed_stay(
    fs: TagView,
    parent: u64,
    name: Name,
    replies: Seq<Reply>,
    after: TagView,
    e: Errno,
)
    requires
        run(fs.rmdir_step(parent, name), replies) == StepView::End(
            after,
            Err::<OutcomeView, Errno>(e),
        ),
    ensures
        after == fs || (fs.node(parent) matches Some(NodeView::Dir(tags)) && only_dirs_dropped(
            fs,
            after,
            tags.insert(name),
        )),
{
    let step = fs.rmdir_step(parent, name);
    if step is End {
        assert(run(step, replies) == step);
    } else if let Some(NodeView::Dir(tags)) = fs.node(parent) {
        lemma_rmdir_fails(fs, tags.insert(name), step, replies, after, e);
    }
}

pub(crate) proof fn lemma_moved_dirs_names(s: FsView, moves: Seq<(Path, Path)>)
    ensures
        s.with_moved_dirs(moves).files.dom() == s.files.dom(),
        s.with_moved_dirs(moves).inodes == s.inodes,
    decreases moves.len(),
{
    if moves.len() > 0 {
        lemma_moved_dirs_names(s, moves.drop_last());
        assert(s.with_moved_dirs(moves).files.dom() =~= s.files.dom());
    }
}

proof fn lemma_tag_fails(
    fs: TagView,
    old: Name,
    new: Name,
    step: StepView,
    replies: Seq<Reply>,
    after: TagView,
    e: Errno,
)
    requires
        step matches StepView::Ask(_, at, task) ==> at == fs && renames(task, old, new),
        step matches StepView::End(at, Err(_)) ==> at.root == fs.root && at.state.files.dom()
            == fs.state.files.dom() && at.state.inodes == fs.state.inodes,
        run(step, replies) == StepView::End(after, Err::<OutcomeView, Errno>(e)),
    ensures
        after.root == fs.root,
        after.state.files.dom() == fs.state.files.dom(),
        after.state.inodes == fs.state.inodes,
    decreases replies.len(),
{
    if replies.len() > 0 {
        if let StepView::Ask(_, at, task) = step {
            let next = at.resumed(task, replies[0]);
            if let TaskView::TagMove { plan, at: k, .. } = task {
                lemma_moved_dirs_names(fs.state, plan.take(k));
            }
            lemma_tag_fails(fs, old, new, next, replies.drop_first(), after, e);
        }
    }
}

/// A tag that could not be renamed leaves every file known by its name, and every
/// inode standing for what it did.
pub proof fn files_are_known_when_a_tag_could_not_be_renamed(
    fs: TagView,
    old: Name,
    new: Name,
    step: StepView,
    replies: Seq<Reply>,
    after: TagView,
    e: Errno,
)
    requires
        fs.starts_rename_tag(old, new, step),
        run(step, replies) == StepView::End(after, Err::<OutcomeView, Errno>(e)),
    ensures
        after.root == fs.root,
        after.state.files.dom() == fs.state.files.dom(),
        after.state.inodes == fs.state.inodes,
        step is End ==> after == fs,
{
    if step is End {
        assert(run(step, replies) == step);
    }
    lemma_tag_fails(fs, old, new, step, replies, after, e);
}

} // verus!
