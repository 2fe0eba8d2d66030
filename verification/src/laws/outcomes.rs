//! What requests that succeed have done.
use vstd::prelude::*;
use vstd::utf8::*;

use crate::inode::{NodeView, ALL_INODE, ROOT_INODE, UNTAGGED_INODE};
use crate::laws::consistent::consistent;
use crate::laws::disk::lemma_moved_tags_plain;
use crate::laws::filed::{
    directory_for_tags_has_them, filed, lemma_changed_tags_plain, lemma_rename_file_filed,
};
use crate::laws::inodes::{file_inode_keeps_order, inodes_in_order, lost_file_keeps_order};
use crate::laws::plain::{lemma_placed, lemma_plain_dir, plain, plain_path, plain_tags};
use crate::laws::requests::{requests_start_well, Request};
use crate::laws::runs::{
    asked_for, has_cause, is_flat_dir, is_tag_dir, moves_take_tags_and_files, read_alike, run,
    runs_without_a_cause_succeed, tags_can_be_renamed,
};
use crate::names::{Name, Path};
use crate::ops::{placed, OpView, OutcomeView, Reply, StepView, TaskView};
use crate::scanner::name_tags;
use crate::state::{first_path, given_up, renamed_entry, renamed_tags};
use crate::tagfs::{Errno, TagView};

verus! {

/// Every inode that was in use stands for what it did.
pub open spec fn inodes_kept(fs: TagView, after: TagView) -> bool {
    forall|i: u64| #[trigger] fs.node(i) is Some ==> after.node(i) == fs.node(i)
}

/// The directories of all sets of tags but one are the same.
pub open spec fn other_dirs_kept(fs: TagView, after: TagView, tags: Set<Name>) -> bool {
    forall|k: Set<Name>| #[trigger]
        after.state.tagdirs.contains_key(k) && k != tags || fs.state.tagdirs.contains_key(k) && k
            != tags ==> fs.state.tagdirs.contains_key(k) && after.state.tagdirs.contains_key(k)
            && after.state.tagdirs[k] == fs.state.tagdirs[k]
}

/// All files but two names are the same.
pub open spec fn other_files_kept(fs: TagView, after: TagView, old: Name, new: Name) -> bool {
    forall|n: Name| #[trigger]
        after.state.files.contains_key(n) && n != old && n != new || fs.state.files.contains_key(n)
            && n != old && n != new ==> fs.state.files.contains_key(n)
            && after.state.files.contains_key(n) && after.state.files[n] == fs.state.files[n]
}

/// Every tag that was known is known, and no other but those of `more`.
pub open spec fn tags_kept(fs: TagView, after: TagView, more: Set<Name>) -> bool {
    forall|t: Name|
        #![trigger fs.state.by_tags.contains_key(t)]
        #![trigger after.state.by_tags.contains_key(t)]
        {
            &&& fs.state.by_tags.contains_key(t) ==> after.state.by_tags.contains_key(t)
            &&& after.state.by_tags.contains_key(t) ==> fs.state.by_tags.contains_key(t)
                || more.contains(t)
        }
}

/// A tag that was made has an inode for its directory, and is available where it
/// was made. Nothing else changes.
pub proof fn made_tags_are_there(
    fs: TagView,
    parent: u64,
    tags: Set<Name>,
    name: Name,
    replies: Seq<Reply>,
    after: TagView,
    outcome: OutcomeView,
)
    requires
        inodes_in_order(fs.state.inodes),
        fs.state.inodes.next < u64::MAX,
        fs.node(parent) == Some(NodeView::Dir(tags)),
        run(fs.mkdir_step(parent, name), replies) == StepView::End(after, Ok(outcome)),
    ensures
        outcome is Inode,
        after.node(outcome->Inode_0) == Some(NodeView::Dir(tags.insert(name))),
        after.state.tagdirs.contains_key(tags.insert(name)),
        exists|p: Path| #[trigger] after.state.tagdirs[tags.insert(name)].contains(p),
        !tags.contains(name) ==> after.state.avail_tags(tags).contains(name),
        tags_kept(fs, after, tags.insert(name)),
        after.root == fs.root,
        after.state.files == fs.state.files,
        inodes_kept(fs, after),
        other_dirs_kept(fs, after, tags.insert(name)),
{
    reveal_with_fuel(run, 3);
    let both = tags.insert(name);
    let s = fs.state;
    let r = s.with_dir_for_tags(both);
    if s.knows_dir(both) {
        assert(exists|p: Path| s.tagdirs[both].contains(p)) by {
            if forall|p: Path| !s.tagdirs[both].contains(p) {
                assert(s.tagdirs[both] =~= Set::<Path>::empty());
            }
        }
    } else {
        assert(r.tagdirs[both].contains(s.dir_for_tags(both)));
    }
    assert(fs.mkdir_done(both) == StepView::End(after, Ok(outcome)));
    if s.inodes.dirs.contains_key(both) {
        assert(s.inodes.nodes.contains_key(s.inodes.dirs[both]));
    }
    assert(both.contains(name) && tags.subset_of(both));
}

/// The one operation for a new tag makes a directory for the tag and those above.
pub proof fn made_tags_get_a_directory(
    fs: TagView,
    parent: u64,
    tags: Set<Name>,
    name: Name,
    replies: Seq<Reply>,
    i: int,
)
    requires
        filed(fs.state),
        plain(name),
        fs.node(parent) == Some(NodeView::Dir(tags)),
        0 <= i < asked_for(fs.mkdir_step(parent, name), replies).len(),
    ensures
        exists|p: Path| #[trigger]
            plain_path(p) && name_tags(p) == tags.insert(name) && asked_for(
                fs.mkdir_step(parent, name),
                replies,
            )[i] == OpView::CreateDirAll(fs.full(p)),
{
    reveal_with_fuel(asked_for, 3);
    let both = tags.insert(name);
    assert(plain_tags(both)) by {
        assert(fs.state.inodes.nodes.contains_key(parent));
    }
    directory_for_tags_has_them(fs.state, both);
    assert(plain_path(fs.state.dir_for_tags(both)));
}

/// A file that was made is known by its name, has the tags of the directory that
/// it was made in, and has an inode. Nothing else changes.
pub proof fn made_files_are_there(
    fs: TagView,
    parent: u64,
    tags: Set<Name>,
    bn: Name,
    replies: Seq<Reply>,
    after: TagView,
    outcome: OutcomeView,
)
    requires
        inodes_in_order(fs.state.inodes),
        fs.state.inodes.next < u64::MAX,
        filed(fs.state),
        plain(bn),
        fs.node(parent) == Some(NodeView::Dir(tags)),
        run(fs.create_step(parent, bn), replies) == StepView::End(after, Ok(outcome)),
    ensures
        !fs.state.files.contains_key(bn),
        outcome is Inode,
        after.node(outcome->Inode_0) == Some(NodeView::File(bn)),
        after.state.files.contains_key(bn),
        after.state.files[bn].tags == tags,
        after.state.files[bn].ffn.len() > 0,
        after.state.files[bn].ffn.last() == encode_utf8(bn),
        name_tags(after.state.files[bn].ffn.drop_last()) == tags,
        asked_for(fs.create_step(parent, bn), replies).contains(
            OpView::CreateFile(fs.full(after.state.files[bn].ffn)),
        ),
        other_files_kept(fs, after, bn, bn),
        other_dirs_kept(fs, after, tags),
        tags_kept(fs, after, tags),
        after.root == fs.root,
        forall|i: u64| #[trigger]
            fs.node(i) is Some && fs.node(i) != Some(NodeView::File(bn)) ==> after.node(i)
                == fs.node(i),
{
    reveal_with_fuel(run, 4);
    reveal_with_fuel(asked_for, 4);
    let s = fs.state;
    assert(s.inodes.nodes.contains_key(parent));
    if parent == ROOT_INODE {
        assert(tags == Set::<Name>::empty());
    }
    directory_for_tags_has_them(s, tags);
    let ffn = placed(s.dir_for_tags(tags), bn);
    lemma_placed(s.dir_for_tags(tags), bn);
    assert(ffn.drop_last() =~= s.dir_for_tags(tags));
    let mid = s.with_dir_for_tags(tags);
    let op = OpView::CreateFile(fs.full(ffn));
    let ops = asked_for(fs.create_step(parent, bn), replies);
    if s.dir_is_missing(tags) {
        assert(ops[1] == op);
    } else {
        assert(ops[0] == op);
    }
    let r = mid.with_new_file(bn, tags, ffn);
    assert(after == fs.with(r));
    if s.inodes.files.contains_key(bn) {
        assert(s.inodes.nodes.contains_key(s.inodes.files[bn]));
    }
}

/// A file that was deleted is known no longer and has no inode. The one operation
/// removes it from its place. Nothing else changes.
pub proof fn deleted_files_are_gone(
    fs: TagView,
    bn: Name,
    replies: Seq<Reply>,
    after: TagView,
    outcome: OutcomeView,
)
    requires
        inodes_in_order(fs.state.inodes),
        run(fs.unlink_step(bn), replies) == StepView::End(after, Ok(outcome)),
    ensures
        fs.state.files.contains_key(bn),
        after.state.files == fs.state.files.remove(bn),
        after.state.tagdirs == fs.state.tagdirs,
        tags_kept(fs, after, Set::empty()),
        after.root == fs.root,
        asked_for(fs.unlink_step(bn), replies) == seq![
            OpView::RemoveFile(fs.full(fs.state.files[bn].ffn)),
        ],
        replies[0] is Ok,
        forall|i: u64| #[trigger] after.node(i) != Some(NodeView::File(bn)),
        forall|i: u64| #[trigger]
            fs.node(i) != Some(NodeView::File(bn)) ==> after.node(i) == fs.node(i),
{
    reveal_with_fuel(run, 3);
    reveal_with_fuel(asked_for, 3);
    let v = fs.state.inodes;
    assert forall|i: u64| #[trigger] after.node(i) != Some(NodeView::File(bn)) by {
        if v.nodes.contains_key(i) && v.nodes[i] == NodeView::File(bn) {
            assert(v.files[bn] == i);
        }
    }
    assert forall|i: u64| #[trigger] fs.node(i) != Some(NodeView::File(bn)) implies after.node(i)
        == fs.node(i) by {
        if v.files.contains_key(bn) {
            assert(v.nodes[v.files[bn]] == NodeView::File(bn));
        }
    }
}

/// There is an inode for the new name of a file and none for the old one. All other
/// inodes stand for what they did.
pub open spec fn inode_is_renamed(fs: TagView, after: TagView, old: Name, new: Name) -> bool {
    &&& forall|i: u64| #[trigger] after.node(i) != Some(NodeView::File(old))
    &&& exists|i: u64| #[trigger] after.node(i) == Some(NodeView::File(new))
    &&& forall|i: u64| #[trigger]
        fs.node(i) is Some && fs.node(i) != Some(NodeView::File(old)) ==> after.node(i)
            == fs.node(i)
}

proof fn lemma_inode_renamed(fs: TagView, old: Name, new: Name)
    requires
        inodes_in_order(fs.state.inodes),
        fs.state.inodes.next < u64::MAX,
        old != new,
    ensures
        inode_is_renamed(fs, fs.with(fs.state.with_renamed_file(old, new)), old, new),
{
    let after = fs.with(fs.state.with_renamed_file(old, new));
    let v = fs.state.inodes;
    let w = after.state.inodes;
    lost_file_keeps_order(v, old);
    file_inode_keeps_order(v.without_file(old), new);
    assert(w.files.contains_key(new) && w.nodes[w.files[new]] == NodeView::File(new));
    assert(after.node(w.files[new]) == Some(NodeView::File(new)));
    assert forall|i: u64| #[trigger] after.node(i) != Some(NodeView::File(old)) by {
        if w.nodes.contains_key(i) && w.nodes[i] == NodeView::File(old) {
            assert(w.files.contains_key(old));
        }
    }
    assert forall|i: u64| #[trigger]
        fs.node(i) is Some && fs.node(i) != Some(NodeView::File(old)) implies after.node(i)
        == fs.node(i) by {
        assert(v.nodes.contains_key(i));
        if v.files.contains_key(old) {
            assert(v.nodes[v.files[old]] == NodeView::File(old));
        }
    }
}

/// A file that was renamed is known by its new name only, in the same directory
/// and with the same tags. It was moved there from its old place. Nothing else
/// changes.
pub proof fn renamed_files_keep_their_tags(
    fs: TagView,
    old: Name,
    new: Name,
    replies: Seq<Reply>,
    after: TagView,
    outcome: OutcomeView,
)
    requires
        filed(fs.state),
        inodes_in_order(fs.state.inodes),
        fs.state.inodes.next < u64::MAX,
        plain(new),
        run(fs.rename_file_step(old, new, Set::empty(), Set::empty()), replies) == StepView::End(
            after,
            Ok(outcome),
        ),
    ensures
        fs.state.files.contains_key(old),
        !fs.state.files.contains_key(new),
        after.state.files.dom() == fs.state.files.dom().remove(old).insert(new),
        other_files_kept(fs, after, old, new),
        after.state.files[new].tags == fs.state.files[old].tags,
        after.state.files[new].ffn == fs.state.files[old].ffn.drop_last().push(encode_utf8(new)),
        after.state.tagdirs == fs.state.tagdirs,
        tags_kept(fs, after, Set::empty()),
        after.root == fs.root,
        inode_is_renamed(fs, after, old, new),
        asked_for(fs.rename_file_step(old, new, Set::empty(), Set::empty()), replies).contains(
            OpView::Rename(
                fs.full(fs.state.files[old].ffn),
                fs.full(after.state.files[new].ffn),
            ),
        ),
{
    reveal_with_fuel(run, 4);
    reveal_with_fuel(asked_for, 4);
    let s = fs.state;
    lemma_inode_renamed(fs, old, new);
    lemma_plain_dir(s.files[old].ffn);
    lemma_placed(s.files[old].ffn.drop_last(), new);
    let ops = asked_for(fs.rename_file_step(old, new, Set::empty(), Set::empty()), replies);
    assert(ops[1] == OpView::Rename(
        fs.full(s.files[old].ffn),
        fs.full(s.renamed_ffn(old, new)),
    ));
    assert(after.state.files.dom() =~= s.files.dom().remove(old).insert(new));
}

/// The tags of a file after some were added and some taken off.
pub open spec fn tags_changed(was: Set<Name>, now: Set<Name>, add: Set<Name>, remove: Set<Name>) -> bool {
    forall|t: Name| #[trigger]
        now.contains(t) <==> (was.contains(t) || add.contains(t)) && !remove.contains(t)
}

/// A file whose tags were changed has those that were added and none that was taken
/// off, and is in a directory with just these tags. Nothing else changes.
pub proof fn retagged_files_have_their_new_tags(
    fs: TagView,
    bn: Name,
    add: Set<Name>,
    remove: Set<Name>,
    replies: Seq<Reply>,
    after: TagView,
    outcome: OutcomeView,
)
    requires
        filed(fs.state),
        plain_tags(add),
        run(fs.retag_step(bn, add, remove), replies) == StepView::End(after, Ok(outcome)),
    ensures
        fs.state.files.contains_key(bn),
        after.state.files.dom() == fs.state.files.dom(),
        other_files_kept(fs, after, bn, bn),
        tags_changed(fs.state.files[bn].tags, after.state.files[bn].tags, add, remove),
        after.state.files[bn].ffn.len() > 0,
        after.state.files[bn].ffn.last() == encode_utf8(bn),
        name_tags(after.state.files[bn].ffn.drop_last()) == after.state.files[bn].tags,
        other_dirs_kept(fs, after, after.state.files[bn].tags),
        after.state.inodes == fs.state.inodes,
        tags_kept(fs, after, add.union(after.state.files[bn].tags)),
        after.root == fs.root,
        after.state.files[bn].ffn != fs.state.files[bn].ffn ==> asked_for(
            fs.retag_step(bn, add, remove),
            replies,
        ).contains(
            OpView::Rename(fs.full(fs.state.files[bn].ffn), fs.full(after.state.files[bn].ffn)),
        ),
{
    reveal_with_fuel(run, 5);
    reveal_with_fuel(asked_for, 5);
    let s = fs.state;
    let tags = s.changed_tags(bn, add, remove);
    lemma_changed_tags_plain(s, bn, add, remove);
    directory_for_tags_has_them(s, tags);
    let ffn = placed(s.dir_for_tags(tags), bn);
    lemma_placed(s.dir_for_tags(tags), bn);
    assert(ffn.drop_last() =~= s.dir_for_tags(tags));
    let mid = s.with_dir_for_tags(tags);
    assert(mid.files == s.files);
    assert(mid.changed_tags(bn, add, remove) == tags);
    assert(after == fs.with(mid.with_changed_tags(bn, add, remove, ffn)));
    assert(after.state.files.dom() =~= s.files.dom());
    if ffn != s.files[bn].ffn {
        let ops = asked_for(fs.retag_step(bn, add, remove), replies);
        let op = OpView::Rename(fs.full(s.files[bn].ffn), fs.full(ffn));
        if s.dir_is_missing(tags) {
            assert(ops[2] == op);
        } else {
            assert(ops[1] == op);
        }
    }
}

/// The step waits for a directory of the tags to be removed.
spec fn drops_dir(fs: TagView, tags: Set<Name>, step: StepView) -> bool {
    match step {
        StepView::Ask(_, at, TaskView::RmdirDrop { tags: t }) => at == fs && t == tags,
        _ => false,
    }
}

proof fn lemma_rmdir_run(
    fs: TagView,
    tags: Set<Name>,
    step: StepView,
    replies: Seq<Reply>,
    after: TagView,
    outcome: OutcomeView,
)
    requires
        step == fs.rmdir_next(tags) || drops_dir(fs, tags, step),
        run(step, replies) == StepView::End(after, Ok(outcome)),
    ensures
        after == fs.with(fs.state.without_tagdir(tags)),
    decreases replies.len(),
{
    if let StepView::Ask(_, at, task) = step {
        if replies.len() > 0 {
            let next = at.resumed(task, replies[0]);
            let less = fs.with(fs.state.without_first_dir(tags));
            assert(fs.state.tagdirs.insert(
                tags,
                fs.state.tagdirs[tags].remove(first_path(fs.state.tagdirs[tags])),
            ).remove(tags) =~= fs.state.tagdirs.remove(tags));
            if next is End {
                assert(run(next, replies.drop_first()) == next);
            }
            if next == less.rmdir_next(tags) {
                lemma_rmdir_run(less, tags, next, replies.drop_first(), after, outcome);
            } else if next is Ask {
                lemma_rmdir_run(fs, tags, next, replies.drop_first(), after, outcome);
            }
        }
    }
}

/// A tag that was removed from a directory is no longer available there, and the
/// inode of its directory is gone. Nothing else changes.
pub proof fn removed_tags_are_gone(
    fs: TagView,
    parent: u64,
    tags: Set<Name>,
    name: Name,
    replies: Seq<Reply>,
    after: TagView,
    outcome: OutcomeView,
)
    requires
        inodes_in_order(fs.state.inodes),
        fs.node(parent) == Some(NodeView::Dir(tags)),
        run(fs.rmdir_step(parent, name), replies) == StepView::End(after, Ok(outcome)),
    ensures
        !after.state.avail_tags(tags).contains(name),
        !after.state.tagdirs.contains_key(tags.insert(name)),
        other_dirs_kept(fs, after, tags.insert(name)),
        after.state.files == fs.state.files,
        after.state.by_tags == fs.state.by_tags,
        after.root == fs.root,
        forall|i: u64| #[trigger] after.node(i) != Some(NodeView::Dir(tags.insert(name))),
        forall|i: u64| #[trigger]
            fs.node(i) != Some(NodeView::Dir(tags.insert(name))) ==> after.node(i) == fs.node(i),
{
    let both = tags.insert(name);
    let v = fs.state.inodes;
    let step = fs.rmdir_step(parent, name);
    if step is End {
        assert(run(step, replies) == step);
    }
    lemma_rmdir_run(fs, both, step, replies, after, outcome);
    if after.state.avail_tags(tags).contains(name) {
        let k = choose|k: Set<Name>| #[trigger]
            after.state.tagdirs.contains_key(k) && tags.subset_of(k) && k.contains(name);
        assert(fs.state.tagdirs.contains_key(k) && both.subset_of(k));
    }
    assert forall|i: u64| #[trigger] after.node(i) != Some(NodeView::Dir(both)) by {
        if v.nodes.contains_key(i) && v.nodes[i] == NodeView::Dir(both) {
            assert(v.dirs[both] == i);
        }
    }
    assert forall|i: u64| #[trigger] fs.node(i) != Some(NodeView::Dir(both)) implies after.node(i)
        == fs.node(i) by {
        if v.dirs.contains_key(both) {
            assert(v.nodes[v.dirs[both]] == NodeView::Dir(both));
        }
    }
}

/// `now` is `was` with `new` in place of `old`.
pub open spec fn renamed_in(was: Set<Name>, now: Set<Name>, old: Name, new: Name) -> bool {
    forall|t: Name| #[trigger]
        now.contains(t) <==> (if t == new {
            was.contains(old)
        } else {
            t != old && was.contains(t)
        })
}

/// Everywhere the tag `old` is called `new`, and nothing else changes: every file
/// and every directory has `new` exactly if it had `old`, and the other tags that
/// it had.
pub open spec fn tag_is_renamed(fs: TagView, after: TagView, old: Name, new: Name) -> bool {
    let s = fs.state;
    let r = after.state;
    &&& after.root == fs.root
    &&& r.files.dom() == s.files.dom()
    &&& forall|n: Name| #[trigger]
        s.files.contains_key(n) ==> renamed_in(s.files[n].tags, r.files[n].tags, old, new)
    &&& forall|n: Name| #[trigger]
        s.files.contains_key(n) && !s.files[n].tags.contains(old) ==> r.files[n] == s.files[n]
    &&& forall|j: Set<Name>| #[trigger]
        s.tagdirs.contains_key(j) ==> exists|k: Set<Name>| #[trigger]
            r.tagdirs.contains_key(k) && renamed_in(j, k, old, new)
    &&& forall|k: Set<Name>| #[trigger]
        r.tagdirs.contains_key(k) ==> exists|j: Set<Name>| #[trigger]
            s.tagdirs.contains_key(j) && renamed_in(j, k, old, new)
    &&& !r.by_tags.contains_key(old)
    &&& r.by_tags.contains_key(new)
    &&& forall|t: Name|
        t != old && t != new ==> #[trigger] r.by_tags.contains_key(t) == s.by_tags.contains_key(t)
    &&& forall|i: u64|
        (#[trigger] fs.node(i) matches Some(NodeView::Dir(k)) && !k.contains(old)) ==> after.node(i)
            == fs.node(i)
    &&& forall|i: u64|
        #![trigger after.node(i)]
        !(fs.node(i) matches Some(NodeView::Dir(_))) ==> after.node(i) == fs.node(i)
    &&& forall|i: u64|
        #[trigger] after.node(i) matches Some(NodeView::Dir(k)) ==> !(k.contains(old)
            && s.tagdirs.contains_key(k))
    &&& forall|i: u64|
        (#[trigger] fs.node(i) matches Some(NodeView::Dir(k)) && !s.tagdirs.contains_key(k))
            ==> after.node(i) == fs.node(i)
    &&& forall|i: u64| #[trigger] after.node(i) is Some ==> after.node(i) == fs.node(i)
}

/// The task renames the tag `old` to `new`.
pub open spec fn renames(task: TaskView, old: Name, new: Name) -> bool {
    match task {
        TaskView::TagLookOld { old: a, new: b, .. } => a == old && b == new,
        TaskView::TagLookNew { old: a, new: b, .. } => a == old && b == new,
        TaskView::TagMove { old: a, new: b, .. } => a == old && b == new,
        _ => false,
    }
}

proof fn lemma_tag_run(
    fs: TagView,
    old: Name,
    new: Name,
    step: StepView,
    replies: Seq<Reply>,
    after: TagView,
    outcome: OutcomeView,
)
    requires
        step matches StepView::Ask(_, at, task) ==> at == fs && renames(task, old, new),
        step matches StepView::End(at, Ok(_)) ==> at == fs.with(
            fs.state.with_renamed_tag(old, new),
        ),
        run(step, replies) == StepView::End(after, Ok(outcome)),
    ensures
        after == fs.with(fs.state.with_renamed_tag(old, new)),
    decreases replies.len(),
{
    if replies.len() > 0 {
        if let StepView::Ask(_, at, task) = step {
            let next = at.resumed(task, replies[0]);
            lemma_tag_run(fs, old, new, next, replies.drop_first(), after, outcome);
        }
    }
}

/// A tag that was renamed is renamed everywhere.
pub proof fn renamed_tags_are_renamed_everywhere(
    fs: TagView,
    old: Name,
    new: Name,
    step: StepView,
    replies: Seq<Reply>,
    after: TagView,
    outcome: OutcomeView,
)
    requires
        consistent(fs.state),
        inodes_in_order(fs.state.inodes),
        old != new,
        fs.starts_rename_tag(old, new, step),
        run(step, replies) == StepView::End(after, Ok(outcome)),
    ensures
        after.state == fs.state.with_renamed_tag(old, new),
        tag_is_renamed(fs, after, old, new),
{
    let s = fs.state;
    if step is End {
        assert(run(step, replies) == step);
    }
    lemma_tag_run(fs, old, new, step, replies, after, outcome);
    let r = after.state;
    if s.by_tags.contains_key(new) {
        assert(step matches StepView::End(_, Err(_)));
    }
    assert(r.files.dom() =~= s.files.dom());
    assert forall|n: Name| #[trigger] s.files.contains_key(n) implies renamed_in(
        s.files[n].tags,
        r.files[n].tags,
        old,
        new,
    ) && (!s.files[n].tags.contains(old) ==> r.files[n] == s.files[n]) by {
        assert(r.files[n] == renamed_entry(s.files[n], old, new));
        assert(!s.files[n].tags.contains(new));
    }
    assert forall|j: Set<Name>| #[trigger] s.tagdirs.contains_key(j) implies renamed_in(
        j,
        renamed_tags(j, old, new),
        old,
        new,
    ) && r.tagdirs.contains_key(renamed_tags(j, old, new)) by {
        assert(!j.contains(new));
    }
    assert forall|k: Set<Name>| #[trigger] r.tagdirs.contains_key(k) implies exists|j: Set<Name>|
        #[trigger]
        s.tagdirs.contains_key(j) && renamed_in(j, k, old, new) by {
        let j = choose|j: Set<Name>| #[trigger]
            s.tagdirs.contains_key(j) && renamed_tags(j, old, new) == k;
        assert(s.tagdirs.contains_key(j) && renamed_in(j, k, old, new));
    }
    lemma_renamed_nodes(fs, old, new);
}

/// A move of a tag to a name that is not known renames it everywhere, whichever
/// directories it is moved from and to. It succeeds where no operation is a cause to
/// fail.
pub proof fn tags_are_renamed_from_every_directory(
    fs: TagView,
    parent: u64,
    name: Name,
    new_parent: u64,
    new_name: Name,
    step: StepView,
    replies: Seq<Reply>,
    after: TagView,
    result: Result<OutcomeView, Errno>,
)
    requires
        consistent(fs.state),
        filed(fs.state),
        inodes_in_order(fs.state.inodes),
        fs.state.inodes.next < u64::MAX,
        plain(new_name),
        is_tag_dir(fs, parent) || is_flat_dir(fs, parent),
        is_tag_dir(fs, new_parent) || is_flat_dir(fs, new_parent),
        fs.state.by_tags.contains_key(name),
        !fs.state.files.contains_key(name),
        !fs.state.by_tags.contains_key(new_name),
        !read_alike(fs.state, name),
        fs.starts_rename(parent, name, new_parent, new_name, step),
        run(step, replies) == StepView::End(after, result),
        forall|e: Errno| !#[trigger] has_cause(step, replies, e),
    ensures
        result is Ok,
        tag_is_renamed(fs, after, name, new_name),
{
    moves_take_tags_and_files(fs, parent, name, new_parent, new_name, step);
    tags_can_be_renamed(fs, name, new_name, step);
    requests_start_well(
        fs,
        Request::Rename { parent, name, new_parent, new_name },
        step,
    );
    runs_without_a_cause_succeed(step, replies, after, result);
    if let Ok(outcome) = result {
        renamed_tags_are_renamed_everywhere(fs, name, new_name, step, replies, after, outcome);
    }
}

proof fn lemma_renamed_nodes(fs: TagView, old: Name, new: Name)
    requires
        consistent(fs.state),
        inodes_in_order(fs.state.inodes),
        old != new,
        !fs.state.by_tags.contains_key(new),
    ensures
        ({
            let s = fs.state;
            let after = fs.with(s.with_renamed_tag(old, new));
            &&& forall|i: u64|
                (#[trigger] fs.node(i) matches Some(NodeView::Dir(k)) && !k.contains(old))
                    ==> after.node(i) == fs.node(i)
            &&& forall|i: u64|
                #![trigger after.node(i)]
                !(fs.node(i) matches Some(NodeView::Dir(_))) ==> after.node(i) == fs.node(i)
            &&& forall|i: u64|
                #[trigger] after.node(i) matches Some(NodeView::Dir(k)) ==> !(k.contains(old)
                    && s.tagdirs.contains_key(k))
            &&& forall|i: u64|
                (#[trigger] fs.node(i) matches Some(NodeView::Dir(k)) && !s.tagdirs.contains_key(k))
                    ==> after.node(i) == fs.node(i)
            &&& forall|i: u64| #[trigger]
                after.node(i) is Some ==> after.node(i) == fs.node(i)
        }),
{
    let s = fs.state;
    let v = s.inodes;
    let after = fs.with(s.with_renamed_tag(old, new));
    let w = after.state.inodes;
    assert forall|i: u64|
        #[trigger] after.node(i) matches Some(NodeView::Dir(k)) ==> !(k.contains(old)
            && s.tagdirs.contains_key(k)) by {
        let k = match after.node(i) {
            Some(NodeView::Dir(k)) => k,
            _ => Set::empty(),
        };
        if k.contains(old) && s.tagdirs.contains_key(k) {
            assert(!k.contains(new));
            assert(given_up(k, old, new) =~= k);
            assert(v.dirs.contains_key(k) && v.dirs[k] == i);
            assert(!w.nodes.contains_key(i));
        }
    }
    assert forall|i: u64|
        (#[trigger] fs.node(i) matches Some(NodeView::Dir(k)) && !s.tagdirs.contains_key(
            k,
        )) implies after.node(i) == fs.node(i) by {
        if !w.nodes.contains_key(i) {
            let t = choose|t: Set<Name>| #[trigger]
                v.dirs.contains_key(t) && (exists|j: Set<Name>| #[trigger]
                    s.tagdirs.contains_key(j) && j.contains(old) && given_up(j, old, new) == t)
                    && v.dirs[t] == i;
            let j = choose|j: Set<Name>| #[trigger]
                s.tagdirs.contains_key(j) && j.contains(old) && given_up(j, old, new) == t;
            assert(!j.contains(new));
            assert(given_up(j, old, new) =~= j);
            assert(v.nodes[v.dirs[t]] == NodeView::Dir(t));
        }
    }
    assert forall|i: u64|
        (#[trigger] fs.node(i) matches Some(NodeView::Dir(k)) && !k.contains(old)) implies after.node(
        i,
    ) == fs.node(i) by {
        if !w.nodes.contains_key(i) {
            let t = choose|t: Set<Name>| #[trigger]
                v.dirs.contains_key(t) && (exists|j: Set<Name>| #[trigger]
                    s.tagdirs.contains_key(j) && j.contains(old) && given_up(j, old, new) == t)
                    && v.dirs[t] == i;
            assert(v.nodes[v.dirs[t]] == NodeView::Dir(t));
            assert(t.contains(old));
        }
    }
    assert forall|i: u64|
        #![trigger after.node(i)]
        !(fs.node(i) matches Some(NodeView::Dir(_))) implies after.node(i) == fs.node(i) by {
        if v.nodes.contains_key(i) && !w.nodes.contains_key(i) {
            let t = choose|t: Set<Name>| #[trigger]
                v.dirs.contains_key(t) && (exists|j: Set<Name>| #[trigger]
                    s.tagdirs.contains_key(j) && j.contains(old) && given_up(j, old, new) == t)
                    && v.dirs[t] == i;
            assert(v.nodes[v.dirs[t]] == NodeView::Dir(t));
        }
    }
}

/// The directory is a tag directory other than the root, with the tag `t`.
pub open spec fn has_in_path(fs: TagView, ino: u64, t: Name) -> bool {
    ino != ROOT_INODE && (fs.node(ino) matches Some(NodeView::Dir(tags)) && tags.contains(t))
}

/// The tags of a file that was moved from one directory to another. It gets the
/// tags of the directory that it is moved to. It loses those of the directory that
/// it is moved out of, and all of them on the way from `_all` to `_untagged` or to
/// the root. It keeps the others.
pub open spec fn moved_to_tags(
    fs: TagView,
    was: Set<Name>,
    now: Set<Name>,
    parent: u64,
    new_parent: u64,
) -> bool {
    forall|t: Name| #[trigger]
        now.contains(t) <==> has_in_path(fs, new_parent, t) || (was.contains(t) && !has_in_path(
            fs,
            parent,
            t,
        ) && !(parent == ALL_INODE && (new_parent == UNTAGGED_INODE || new_parent == ROOT_INODE)))
}

/// A file that was moved is known by its new name only, and has the tags that its
/// way gives it. Nothing else changes but for the directory that is made for it.
/// This is said of a file that is shown where it is moved from.
pub proof fn moved_files_get_the_tags_of_their_way(
    fs: TagView,
    parent: u64,
    name: Name,
    new_parent: u64,
    new_name: Name,
    step: StepView,
    replies: Seq<Reply>,
    after: TagView,
    outcome: OutcomeView,
)
    requires
        filed(fs.state),
        inodes_in_order(fs.state.inodes),
        fs.state.inodes.next < u64::MAX,
        plain(new_name),
        fs.state.files.contains_key(name),
        forall|t: Name| #[trigger]
            has_in_path(fs, parent, t) ==> fs.state.files[name].tags.contains(t),
        fs.starts_rename(parent, name, new_parent, new_name, step),
        run(step, replies) == StepView::End(after, Ok(outcome)),
    ensures
        name != new_name ==> !fs.state.files.contains_key(new_name),
        after.state.files.dom() == fs.state.files.dom().remove(name).insert(new_name),
        other_files_kept(fs, after, name, new_name),
        moved_to_tags(
            fs,
            fs.state.files[name].tags,
            after.state.files[new_name].tags,
            parent,
            new_parent,
        ),
        other_dirs_kept(fs, after, after.state.files[new_name].tags),
        after.root == fs.root,
        name != new_name ==> after.state.files[new_name].ffn.last() == encode_utf8(new_name),
        name != new_name ==> inode_is_renamed(fs, after, name, new_name),
        name == new_name ==> after.state.inodes == fs.state.inodes,
{
    let s = fs.state;
    let v = s.inodes;
    let was = s.files[name].tags;
    assert(v.nodes.contains_key(ALL_INODE) && v.nodes.contains_key(UNTAGGED_INODE));
    if v.nodes.contains_key(parent) && v.nodes.contains_key(new_parent) {
        let old_tags = fs.tags_before(parent, name, new_parent).unwrap();
        let new_tags = fs.tags_after(parent, name, new_parent).unwrap();
        let add = new_tags.difference(old_tags);
        let remove = old_tags.difference(new_tags);
        let now = was.union(add).difference(remove);
        if fs.tags_before(parent, name, new_parent) is Some && fs.tags_after(
            parent,
            name,
            new_parent,
        ) is Some {
            assert(moved_to_tags(fs, was, now, parent, new_parent)) by {
                assert forall|t: Name| #[trigger] now.contains(t) <==> has_in_path(
                    fs,
                    new_parent,
                    t,
                ) || (was.contains(t) && !has_in_path(fs, parent, t) && !(parent == ALL_INODE && (
                new_parent == UNTAGGED_INODE || new_parent == ROOT_INODE))) by {
                    assert(has_in_path(fs, parent, t) ==> was.contains(t));
                }
            }
            lemma_moved_tags_plain(fs, parent, name, new_parent);
            if name == new_name {
                lemma_retag_run(fs, name, add, remove, replies, after, outcome);
                assert(after.state.files.dom() =~= s.files.dom().remove(name).insert(new_name));
                assert(after.state.files[name].tags =~= now);
            } else {
                lemma_rename_run(fs, name, new_name, add, remove, step, replies, after, outcome);
                assert(after.state.files[new_name].tags =~= now);
            }
        } else {
            assert(run(step, replies) == step);
        }
    } else {
        assert(run(step, replies) == step);
    }
}

proof fn lemma_retag_run(
    fs: TagView,
    bn: Name,
    add: Set<Name>,
    remove: Set<Name>,
    replies: Seq<Reply>,
    after: TagView,
    outcome: OutcomeView,
)
    requires
        filed(fs.state),
        fs.state.files.contains_key(bn),
        plain_tags(add),
        run(fs.retag_if_any(bn, add, remove), replies) == StepView::End(after, Ok(outcome)),
    ensures
        after.state.files.dom() == fs.state.files.dom(),
        other_files_kept(fs, after, bn, bn),
        tags_changed(fs.state.files[bn].tags, after.state.files[bn].tags, add, remove),
        other_dirs_kept(fs, after, after.state.files[bn].tags),
        after.root == fs.root,
        after.state.inodes == fs.state.inodes,
        after.state.files[bn] == fs.state.files[bn] || after.state.files[bn].ffn.last()
            == encode_utf8(bn),
{
    if add == Set::<Name>::empty() && remove == Set::<Name>::empty() {
        assert(run(fs.retag_if_any(bn, add, remove), replies) == fs.retag_if_any(bn, add, remove));
    } else {
        retagged_files_have_their_new_tags(fs, bn, add, remove, replies, after, outcome);
    }
}

proof fn lemma_rename_run(
    fs: TagView,
    old: Name,
    new: Name,
    add: Set<Name>,
    remove: Set<Name>,
    step: StepView,
    replies: Seq<Reply>,
    after: TagView,
    outcome: OutcomeView,
)
    requires
        filed(fs.state),
        plain(new),
        plain_tags(add),
        inodes_in_order(fs.state.inodes),
        fs.state.inodes.next < u64::MAX,
        old != new,
        step == fs.rename_file_step(old, new, add, remove),
        run(step, replies) == StepView::End(after, Ok(outcome)),
    ensures
        fs.state.files.contains_key(old),
        !fs.state.files.contains_key(new),
        after.state.files.dom() == fs.state.files.dom().remove(old).insert(new),
        other_files_kept(fs, after, old, new),
        tags_changed(fs.state.files[old].tags, after.state.files[new].tags, add, remove),
        other_dirs_kept(fs, after, after.state.files[new].tags),
        after.root == fs.root,
        after.state.files[new].ffn.last() == encode_utf8(new),
        inode_is_renamed(fs, after, old, new),
{
    reveal_with_fuel(run, 3);
    let s = fs.state;
    lemma_inode_renamed(fs, old, new);
    lemma_plain_dir(s.files[old].ffn);
    lemma_placed(s.files[old].ffn.drop_last(), new);
    let mid = fs.with(s.with_renamed_file(old, new));
    lemma_rename_file_filed(s, old, new);
    let rest = replies.drop_first().drop_first();
    assert(run(mid.retag_if_any(new, add, remove), rest) == StepView::End(after, Ok(outcome)));
    lemma_retag_run(mid, new, add, remove, rest, after, outcome);
    assert forall|i: u64| after.node(i) == #[trigger] mid.node(i) by {}
    assert(inode_is_renamed(fs, after, old, new)) by {
        let i = choose|i: u64| #[trigger] mid.node(i) == Some(NodeView::File(new));
        assert(after.node(i) == Some(NodeView::File(new)));
        assert forall|i: u64| #[trigger] after.node(i) != Some(NodeView::File(old)) by {
            assert(mid.node(i) != Some(NodeView::File(old)));
        }
    }
    assert(mid.state.files.dom() =~= s.files.dom().remove(old).insert(new));
    assert(other_files_kept(fs, after, old, new)) by {
        assert forall|n: Name| #[trigger]
            after.state.files.contains_key(n) && n != old && n != new || s.files.contains_key(n)
                && n != old && n != new implies s.files.contains_key(n)
            && after.state.files.contains_key(n) && after.state.files[n] == s.files[n] by {
            assert(mid.state.files.contains_key(n) == s.files.contains_key(n));
        }
    }
    assert(mid.state.tagdirs == s.tagdirs);
    assert(other_dirs_kept(fs, after, after.state.files[new].tags)) by {
        let tags = after.state.files[new].tags;
        assert forall|k: Set<Name>| #[trigger]
            after.state.tagdirs.contains_key(k) && k != tags || s.tagdirs.contains_key(k) && k
                != tags implies s.tagdirs.contains_key(k) && after.state.tagdirs.contains_key(k)
            && after.state.tagdirs[k] == s.tagdirs[k] by {
            assert(mid.state.tagdirs.contains_key(k) == s.tagdirs.contains_key(k));
        }
    }
}

} // verus!
