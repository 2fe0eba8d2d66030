//! What the operations that change a filesystem start, and what comes of it.
use vstd::prelude::*;
use vstd::utf8::*;

use crate::inode::NodeView;
use crate::laws::choices::{directories_for_tags_are_not_refused, directories_for_tags_can_be_had};
use crate::laws::operations::in_use;
use crate::laws::outcomes::{
    deleted_files_are_gone, has_in_path, made_files_are_there, made_tags_are_there,
    moved_files_get_the_tags_of_their_way, moved_to_tags, other_dirs_kept, other_files_kept,
    removed_tags_are_gone, renamed_files_keep_their_tags, renamed_tags_are_renamed_everywhere,
    retagged_files_have_their_new_tags, tag_is_renamed, tags_changed,
};
use crate::laws::plain::{plain, plain_tags};
use crate::laws::runs::{
    accepted, files_can_be_made_in_tag_directories, is_flat_dir, is_tag_dir,
    known_files_can_be_deleted, known_files_can_be_renamed, known_files_can_be_retagged,
    moves_take_tags_and_files, only_tags_can_be_removed, read_alike, refused, run,
    tags_can_be_made_in_tag_directories, tags_can_be_renamed,
    tags_without_further_ones_can_be_removed,
};
use crate::names::{Name, NameSet};
use crate::ops::{DiskOp, OutcomeView, Pending, Reply, Step, StepView};
use crate::scanner::name_tags;
use crate::tagfs::{Errno, TagFs, TagView};
use crate::text::text_of;

verus! {

/// A request that is resumed goes on as one that got this reply.
pub proof fn requests_are_resumed(op: DiskOp, p: Pending, reply: Reply, r: Step, rest: Seq<Reply>)
    requires
        call_ensures(Pending::resume, (p, reply), r),
    ensures
        run(Step::Ask(op, p)@, seq![reply] + rest) == run(r@, rest),
{
    let replies = seq![reply] + rest;
    assert(replies.drop_first() =~= rest);
    assert(replies[0] == reply);
}

/// Making a tag is refused but in a tag directory. When it is done, the inode that it
/// gives stands for the directory with one more tag, which is available in the one
/// that it was made in.
pub proof fn tags_are_made(
    fs: TagFs,
    parent: u64,
    name: &[u8],
    r: Step,
    replies: Seq<Reply>,
    after: TagView,
    outcome: OutcomeView,
)
    requires
        in_use(fs@),
        call_ensures(TagFs::mkdir, (fs, parent, name), r),
    ensures
        is_tag_dir(fs@, parent) ==> accepted(r@),
        is_flat_dir(fs@, parent) ==> refused(fs@, r@, Errno::Perm),
        !is_tag_dir(fs@, parent) && !is_flat_dir(fs@, parent) ==> refused(fs@, r@, Errno::NoEnt),
        run(r@, replies) == StepView::End(after, Ok(outcome)) ==> match fs@.node(parent) {
            Some(NodeView::Dir(tags)) => {
                let more = tags.insert(text_of(name@));
                &&& outcome matches OutcomeView::Inode(i) && after.node(i) == Some(
                    NodeView::Dir(more),
                )
                &&& !tags.contains(text_of(name@)) ==> after.state.avail_tags(tags).contains(
                    text_of(name@),
                )
                &&& after.state.files == fs@.state.files
                &&& other_dirs_kept(fs@, after, more)
            },
            _ => false,
        },
{
    let n = text_of(name@);
    tags_can_be_made_in_tag_directories(fs@, parent, n);
    if run(r@, replies) == StepView::End(after, Ok(outcome)) {
        if let Some(NodeView::Dir(tags)) = fs@.node(parent) {
            made_tags_are_there(fs@, parent, tags, n, replies, after, outcome);
        } else {
            assert(run(r@, replies) == r@);
        }
    }
}

/// Making a file is refused where one is known by the name, and but in a tag
/// directory. When it is done, the inode that it gives stands for the file, which
/// has the tags of the directory.
pub proof fn files_are_made(
    fs: TagFs,
    parent: u64,
    name: &[u8],
    r: Step,
    replies: Seq<Reply>,
    after: TagView,
    outcome: OutcomeView,
)
    requires
        in_use(fs@),
        plain(text_of(name@)),
        call_ensures(TagFs::create, (fs, parent, name), r),
    ensures
        ({
            let bn = text_of(name@);
            let known = fs@.state.files.contains_key(bn);
            &&& is_tag_dir(fs@, parent) && !known ==> accepted(r@)
            &&& (is_tag_dir(fs@, parent) || is_flat_dir(fs@, parent)) && known ==> refused(
                fs@,
                r@,
                Errno::Exist,
            )
            &&& is_flat_dir(fs@, parent) && !known ==> refused(fs@, r@, Errno::Perm)
            &&& !is_tag_dir(fs@, parent) && !is_flat_dir(fs@, parent) ==> refused(
                fs@,
                r@,
                Errno::NoEnt,
            )
            &&& run(r@, replies) == StepView::End(after, Ok(outcome)) ==> match fs@.node(parent) {
                Some(NodeView::Dir(tags)) => {
                    &&& outcome matches OutcomeView::Inode(i) && after.node(i) == Some(
                        NodeView::File(bn),
                    )
                    &&& after.state.files.contains_key(bn)
                    &&& after.state.files[bn].tags == tags
                    &&& after.state.files[bn].ffn.last() == encode_utf8(bn)
                    &&& name_tags(after.state.files[bn].ffn.drop_last()) == tags
                    &&& other_files_kept(fs@, after, bn, bn)
                },
                _ => false,
            }
        }),
{
    let bn = text_of(name@);
    files_can_be_made_in_tag_directories(fs@, parent, bn);
    if run(r@, replies) == StepView::End(after, Ok(outcome)) {
        if let Some(NodeView::Dir(tags)) = fs@.node(parent) {
            made_files_are_there(fs@, parent, tags, bn, replies, after, outcome);
        } else {
            assert(run(r@, replies) == r@);
        }
    }
}

/// Every known file can be deleted, whichever directory it is named in. When it is
/// done, the file is not known, and nothing else changes.
pub proof fn files_are_deleted(
    fs: TagFs,
    parent: u64,
    name: &[u8],
    r: Step,
    replies: Seq<Reply>,
    after: TagView,
    outcome: OutcomeView,
)
    requires
        in_use(fs@),
        call_ensures(TagFs::unlink, (fs, parent, name), r),
    ensures
        ({
            let bn = text_of(name@);
            &&& fs@.state.files.contains_key(bn) ==> accepted(r@)
            &&& !fs@.state.files.contains_key(bn) ==> refused(fs@, r@, Errno::NoEnt)
            &&& run(r@, replies) == StepView::End(after, Ok(outcome)) ==> {
                &&& after.state.files == fs@.state.files.remove(bn)
                &&& after.state.tagdirs == fs@.state.tagdirs
                &&& forall|i: u64| #[trigger] after.node(i) != Some(NodeView::File(bn))
            }
        }),
{
    let bn = text_of(name@);
    known_files_can_be_deleted(fs@, bn);
    if run(r@, replies) == StepView::End(after, Ok(outcome)) {
        deleted_files_are_gone(fs@, bn, replies, after, outcome);
    }
}

/// Removing a tag is refused where it occurs together with a further one, for the
/// special directories, and but in a tag directory. When it is done, the tag is not
/// available there.
pub proof fn tags_are_removed(
    fs: TagFs,
    parent: u64,
    name: &[u8],
    r: Step,
    replies: Seq<Reply>,
    after: TagView,
    outcome: OutcomeView,
)
    requires
        in_use(fs@),
        call_ensures(TagFs::rmdir, (fs, parent, name), r),
    ensures
        ({
            let n = text_of(name@);
            let special = n == "_all"@ || n == "_untagged"@;
            &&& special ==> refused(fs@, r@, Errno::Perm)
            &&& !special && !is_tag_dir(fs@, parent) ==> refused(fs@, r@, Errno::NoEnt)
            &&& !special ==> (fs@.node(parent) matches Some(NodeView::Dir(tags)) ==> {
                let further = exists|k: Set<Name>, t: Name|
                    #![trigger fs@.state.tagdirs.contains_key(k), k.contains(t)]
                    fs@.state.tagdirs.contains_key(k) && tags.subset_of(k) && k.contains(n)
                        && k.contains(t) && !tags.contains(t) && t != n;
                &&& further ==> refused(fs@, r@, Errno::NotEmpty)
                &&& !further ==> accepted(r@)
            })
            &&& run(r@, replies) == StepView::End(after, Ok(outcome)) ==> match fs@.node(parent) {
                Some(NodeView::Dir(tags)) => {
                    &&& !after.state.avail_tags(tags).contains(n)
                    &&& after.state.files == fs@.state.files
                    &&& other_dirs_kept(fs@, after, tags.insert(n))
                },
                _ => false,
            }
        }),
{
    let n = text_of(name@);
    only_tags_can_be_removed(fs@, parent, n);
    if let Some(NodeView::Dir(tags)) = fs@.node(parent) {
        if n != "_all"@ && n != "_untagged"@ {
            tags_without_further_ones_can_be_removed(fs@, parent, tags, n);
        }
        if run(r@, replies) == StepView::End(after, Ok(outcome)) {
            removed_tags_are_gone(fs@, parent, tags, n, replies, after, outcome);
        }
    } else {
        assert(r@ is End);
        assert(run(r@, replies) == r@);
    }
}

/// Every known file can be renamed to a name that no file has. When it is done, the
/// file is known by that name, in the same directory and with the same tags.
pub proof fn files_are_renamed(
    fs: TagFs,
    old: &String,
    new: &String,
    r: Step,
    replies: Seq<Reply>,
    after: TagView,
    outcome: OutcomeView,
)
    requires
        in_use(fs@),
        plain(new@),
        call_ensures(TagFs::rename_file, (fs, old, new), r),
    ensures
        fs@.state.files.contains_key(new@) ==> refused(fs@, r@, Errno::Exist),
        !fs@.state.files.contains_key(new@) && !fs@.state.files.contains_key(old@) ==> refused(
            fs@,
            r@,
            Errno::NoEnt,
        ),
        !fs@.state.files.contains_key(new@) && fs@.state.files.contains_key(old@) ==> accepted(r@),
        run(r@, replies) == StepView::End(after, Ok(outcome)) ==> {
            &&& after.state.files.dom() == fs@.state.files.dom().remove(old@).insert(new@)
            &&& after.state.files[new@].tags == fs@.state.files[old@].tags
            &&& after.state.files[new@].ffn == fs@.state.files[old@].ffn.drop_last().push(
                encode_utf8(new@),
            )
            &&& other_files_kept(fs@, after, old@, new@)
        },
{
    known_files_can_be_renamed(fs@, old@, new@, Set::empty(), Set::empty());
    if run(r@, replies) == StepView::End(after, Ok(outcome)) {
        renamed_files_keep_their_tags(fs@, old@, new@, replies, after, outcome);
    }
}

/// The tags of every known file can be changed. When it is done, the file has those
/// that were added and none that was taken off, and is in a directory with just
/// these tags.
pub proof fn files_are_retagged(
    fs: TagFs,
    bn: &String,
    add: &NameSet,
    remove: &NameSet,
    r: Step,
    replies: Seq<Reply>,
    after: TagView,
    outcome: OutcomeView,
)
    requires
        in_use(fs@),
        plain_tags(add@),
        call_ensures(TagFs::add_remove_tags, (fs, bn, add, remove), r),
    ensures
        fs@.state.files.contains_key(bn@) ==> accepted(r@),
        !fs@.state.files.contains_key(bn@) ==> refused(fs@, r@, Errno::NoEnt),
        run(r@, replies) == StepView::End(after, Ok(outcome)) ==> {
            &&& after.state.files.dom() == fs@.state.files.dom()
            &&& tags_changed(
                fs@.state.files[bn@].tags,
                after.state.files[bn@].tags,
                add@,
                remove@,
            )
            &&& name_tags(after.state.files[bn@].ffn.drop_last()) == after.state.files[bn@].tags
            &&& other_files_kept(fs@, after, bn@, bn@)
        },
{
    known_files_can_be_retagged(fs@, bn@, add@, remove@);
    if run(r@, replies) == StepView::End(after, Ok(outcome)) {
        retagged_files_have_their_new_tags(fs@, bn@, add@, remove@, replies, after, outcome);
    }
}

/// Every tag can be renamed to one that is not known, unless two directories side by
/// side read as the tag. When it is done, it is renamed everywhere.
pub proof fn tags_are_renamed(
    fs: TagFs,
    old: &String,
    new: &String,
    r: Step,
    replies: Seq<Reply>,
    after: TagView,
    outcome: OutcomeView,
)
    requires
        in_use(fs@),
        plain(new@),
        old@ != new@,
        call_ensures(TagFs::rename_tag, (fs, old, new), r),
    ensures
        fs@.state.by_tags.contains_key(new@) ==> refused(fs@, r@, Errno::Exist),
        !fs@.state.by_tags.contains_key(new@) && !read_alike(fs@.state, old@) ==> accepted(r@),
        run(r@, replies) == StepView::End(after, Ok(outcome)) ==> tag_is_renamed(
            fs@,
            after,
            old@,
            new@,
        ),
{
    tags_can_be_renamed(fs@, old@, new@, r@);
    if run(r@, replies) == StepView::End(after, Ok(outcome)) {
        renamed_tags_are_renamed_everywhere(fs@, old@, new@, r@, replies, after, outcome);
    }
}

/// A move renames the tag of that name, wherever the two directories are. When it is
/// done, the tag is renamed everywhere.
pub proof fn tags_are_moved(
    fs: TagFs,
    parent: u64,
    name: &[u8],
    new_parent: u64,
    new_name: &[u8],
    r: Step,
    replies: Seq<Reply>,
    after: TagView,
    outcome: OutcomeView,
)
    requires
        in_use(fs@),
        plain(text_of(new_name@)),
        text_of(name@) != text_of(new_name@),
        is_tag_dir(fs@, parent) || is_flat_dir(fs@, parent),
        is_tag_dir(fs@, new_parent) || is_flat_dir(fs@, new_parent),
        fs@.state.by_tags.contains_key(text_of(name@)),
        !fs@.state.files.contains_key(text_of(name@)),
        call_ensures(TagFs::rename, (fs, parent, name, new_parent, new_name), r),
    ensures
        fs@.state.by_tags.contains_key(text_of(new_name@)) ==> refused(fs@, r@, Errno::Exist),
        !fs@.state.by_tags.contains_key(text_of(new_name@)) && !read_alike(
            fs@.state,
            text_of(name@),
        ) ==> accepted(r@),
        run(r@, replies) == StepView::End(after, Ok(outcome)) ==> tag_is_renamed(
            fs@,
            after,
            text_of(name@),
            text_of(new_name@),
        ),
{
    let old = text_of(name@);
    let new = text_of(new_name@);
    moves_take_tags_and_files(fs@, parent, old, new_parent, new, r@);
    tags_can_be_renamed(fs@, old, new, r@);
    if run(r@, replies) == StepView::End(after, Ok(outcome)) {
        renamed_tags_are_renamed_everywhere(fs@, old, new, r@, replies, after, outcome);
    }
}

/// A move of a file that is shown where it is moved from is refused where another
/// has the new name. When it is done, the file has the new name and the tags that
/// its way gives it: among them all those of the directory that it was moved to.
pub proof fn files_are_moved(
    fs: TagFs,
    parent: u64,
    name: &[u8],
    new_parent: u64,
    new_name: &[u8],
    r: Step,
    replies: Seq<Reply>,
    after: TagView,
    outcome: OutcomeView,
)
    requires
        in_use(fs@),
        plain(text_of(new_name@)),
        is_tag_dir(fs@, parent) || is_flat_dir(fs@, parent),
        is_tag_dir(fs@, new_parent) || is_flat_dir(fs@, new_parent),
        fs@.state.files.contains_key(text_of(name@)),
        forall|t: Name| #[trigger]
            has_in_path(fs@, parent, t) ==> fs@.state.files[text_of(name@)].tags.contains(t),
        call_ensures(TagFs::rename, (fs, parent, name, new_parent, new_name), r),
    ensures
        ({
            let old = text_of(name@);
            let new = text_of(new_name@);
            let taken = old != new && fs@.state.files.contains_key(new);
            &&& taken ==> refused(fs@, r@, Errno::Exist)
            &&& !taken ==> accepted(r@)
            &&& run(r@, replies) == StepView::End(after, Ok(outcome)) ==> {
                let now = after.state.files[new].tags;
                &&& after.state.files.dom() == fs@.state.files.dom().remove(old).insert(new)
                &&& other_files_kept(fs@, after, old, new)
                &&& moved_to_tags(fs@, fs@.state.files[old].tags, now, parent, new_parent)
                &&& forall|t: Name| #[trigger]
                    has_in_path(fs@, new_parent, t) ==> now.contains(t)
            }
        }),
{
    let old = text_of(name@);
    let new = text_of(new_name@);
    moves_take_tags_and_files(fs@, parent, old, new_parent, new, r@);
    if run(r@, replies) == StepView::End(after, Ok(outcome)) {
        moved_files_get_the_tags_of_their_way(
            fs@,
            parent,
            old,
            new_parent,
            new,
            r@,
            replies,
            after,
            outcome,
        );
        let now = after.state.files[new].tags;
        assert forall|t: Name| #[trigger] has_in_path(fs@, new_parent, t) implies now.contains(
            t,
        ) by {}
    }
}

/// Nothing is moved but between directories, and nothing that is neither a tag nor
/// a file.
pub proof fn nothing_else_is_moved(
    fs: TagFs,
    parent: u64,
    name: &[u8],
    new_parent: u64,
    new_name: &[u8],
    r: Step,
)
    requires
        call_ensures(TagFs::rename, (fs, parent, name, new_parent, new_name), r),
        !(is_tag_dir(fs@, parent) || is_flat_dir(fs@, parent)) || !(is_tag_dir(fs@, new_parent)
            || is_flat_dir(fs@, new_parent)) || (!fs@.state.by_tags.contains_key(text_of(name@))
            && !fs@.state.files.contains_key(text_of(name@))),
    ensures
        refused(fs@, r@, Errno::NoEnt),
{
    moves_take_tags_and_files(fs@, parent, text_of(name@), new_parent, text_of(new_name@), r@);
}

/// A directory for tags can always be asked for. When it is had, it has these tags
/// and is known.
pub proof fn directories_are_had(
    fs: TagFs,
    tags: &NameSet,
    r: Step,
    replies: Seq<Reply>,
    after: TagView,
    outcome: OutcomeView,
)
    requires
        in_use(fs@),
        plain_tags(tags@),
        call_ensures(TagFs::get_dir_for_tags, (fs, tags), r),
    ensures
        accepted(r@),
        run(r@, replies) == StepView::End(after, Ok(outcome)) ==> {
            &&& outcome matches OutcomeView::Dir(p) && name_tags(p) == tags@
                && after.state.tagdirs.contains_key(tags@) && after.state.tagdirs[tags@].contains(p)
            &&& after.state.files == fs@.state.files
            &&& other_dirs_kept(fs@, after, tags@)
        },
{
    directories_for_tags_are_not_refused(fs@, tags@);
    if run(r@, replies) == StepView::End(after, Ok(outcome)) {
        directories_for_tags_can_be_had(fs@, tags@, replies, after, outcome);
    }
}

} // verus!
