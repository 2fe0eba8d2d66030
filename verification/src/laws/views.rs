//! What is shown where, and what a request changes of it.
use vstd::prelude::*;

use crate::inode::{InodeView, NodeView, SpecialKind, ALL_INODE, ROOT_INODE, UNTAGGED_INODE};
use crate::laws::consistent::{
    consistent, lemma_deleted_file, lemma_new_file, lemma_renamed_file, lemma_renamed_tag,
    matching_is_having_all_tags,
};
use crate::laws::inodes::{inodes_in_order, listing_keeps_order};
use crate::listing::{with_dirs, with_files};
use crate::names::{lemma_sorted_names, sorted_names, Name, Path};
use crate::ops::{OutcomeView, Reply, StepView, TaskView};
use crate::state::{renamed_entry, renamed_tags, FsView};
use crate::tagfs::{Errno, TagView, TargetView, SPECIAL_ALL_NAME, SPECIAL_UNTAGGED_NAME};

verus! {

/// A name in the root that a special directory has.
pub open spec fn is_reserved(ino: u64, name: Name) -> bool {
    ino == ROOT_INODE && (name == SPECIAL_ALL_NAME@ || name == SPECIAL_UNTAGGED_NAME@)
}

/// A name that both a file and a tag have in a directory. Lookups find the file.
pub open spec fn is_shared(fs: TagView, ino: u64, name: Name) -> bool {
    ino != ROOT_INODE && fs.state.matching_files(fs.base_tags(ino)).contains(name)
        && fs.state.avail_tags(fs.base_tags(ino)).contains(name)
}

/// A tag directory shows every file that has all of its tags, and every tag that
/// occurs together with them.
pub proof fn tag_directories_show_their_files(fs: TagView, ino: u64, tags: Set<Name>)
    requires
        consistent(fs.state),
        fs.node(ino) == Some(NodeView::Dir(tags)),
        ino != ROOT_INODE,
    ensures
        fs.shown(ino) is Ok,
        fs.shown(ino).unwrap().tags == fs.state.avail_tags(tags),
        forall|n: Name| #[trigger]
            fs.shown(ino).unwrap().files.contains(n) <==> fs.state.files.contains_key(n)
                && tags.subset_of(fs.state.files[n].tags),
{
    matching_is_having_all_tags(fs.state, tags);
}

/// Every file that a directory shows is found in it. Every tag that it shows is
/// found too, unless a special directory or a file has the name. Nothing else is
/// found but the special directories.
pub proof fn lookups_find_what_is_shown(fs: TagView, ino: u64, name: Name)
    requires
        consistent(fs.state),
        fs.shown(ino) is Ok,
    ensures
        ({
            let sh = fs.shown(ino).unwrap();
            let found = fs.named(ino, name);
            &&& sh.files.contains(name) ==> found == Some(NodeView::File(name))
            &&& sh.tags.contains(name) && !is_reserved(ino, name) && !is_shared(fs, ino, name)
                ==> found == Some(NodeView::Dir(fs.base_tags(ino).insert(name)))
            &&& sh.tags.contains(name) && is_shared(fs, ino, name) ==> found == Some(
                NodeView::File(name),
            )
            &&& found is Some && !is_reserved(ino, name) ==> sh.files.contains(name)
                || sh.tags.contains(name)
        }),
{
    let tags = fs.base_tags(ino);
    matching_is_having_all_tags(fs.state, tags);
    matching_is_having_all_tags(fs.state, Set::empty());
}

/// The special directories are found in the root, whatever tags there are.
pub proof fn special_directories_are_found(fs: TagView)
    requires
        inodes_in_order(fs.state.inodes),
    ensures
        fs.lookup_result(ROOT_INODE, SPECIAL_ALL_NAME@) == Ok::<(u64, TargetView), Errno>(
            (ALL_INODE, TargetView::Dir),
        ),
        fs.lookup_result(ROOT_INODE, SPECIAL_UNTAGGED_NAME@) == Ok::<(u64, TargetView), Errno>(
            (UNTAGGED_INODE, TargetView::Dir),
        ),
        fs.node(ALL_INODE) == Some(NodeView::SpecialDir(SpecialKind::All)),
        fs.node(UNTAGGED_INODE) == Some(NodeView::SpecialDir(SpecialKind::Untagged)),
{
    reveal_strlit("_all");
    reveal_strlit("_untagged");
    assert(SPECIAL_ALL_NAME@.len() != SPECIAL_UNTAGGED_NAME@.len());
}

/// What a lookup found stands behind the inode that it gave out.
pub proof fn looked_up_inode_leads_there(fs: TagView, parent: u64, name: Name)
    requires
        inodes_in_order(fs.state.inodes),
        fs.state.inodes.next < u64::MAX,
    ensures
        fs.lookup_result(parent, name) matches Ok((ino, _)) ==> fs.after_lookup(parent, name).node(
            ino,
        ) == fs.named(parent, name),
{
    if let Some(NodeView::Dir(tags)) = fs.named(parent, name) {
        if fs.state.inodes.dirs.contains_key(tags) {
            assert(fs.state.inodes.nodes.contains_key(fs.state.inodes.dirs[tags]));
        }
    }
    if let Some(NodeView::File(bn)) = fs.named(parent, name) {
        if fs.state.inodes.files.contains_key(bn) {
            assert(fs.state.inodes.nodes.contains_key(fs.state.inodes.files[bn]));
        }
    }
}

/// A second lookup gives the same inode and changes nothing.
pub proof fn lookups_are_lasting(fs: TagView, parent: u64, name: Name)
    requires
        inodes_in_order(fs.state.inodes),
        fs.state.inodes.next < u64::MAX,
        fs.node(parent) is Some,
    ensures
        fs.after_lookup(parent, name).after_lookup(parent, name) == fs.after_lookup(parent, name),
        fs.after_lookup(parent, name).lookup_result(parent, name) == fs.lookup_result(parent, name),
{
    let after = fs.after_lookup(parent, name);
    assert(after.node(parent) == fs.node(parent)) by {
        assert(fs.state.inodes.nodes.contains_key(parent));
    }
    assert(after.state.files == fs.state.files);
    assert(after.state.by_tags == fs.state.by_tags);
    assert(after.state.tagdirs == fs.state.tagdirs);
    if let Some(NodeView::Dir(tags)) = fs.node(parent) {
        assert(after.state.avail_tags(tags) =~= fs.state.avail_tags(tags));
        assert(after.state.matching_files(tags) =~= fs.state.matching_files(tags));
    }
    if let Some(NodeView::SpecialDir(kind)) = fs.node(parent) {
        assert(after.special_files(kind) =~= fs.special_files(kind));
    }
    assert(after.named(parent, name) == fs.named(parent, name));
}

pub(crate) proof fn lemma_listed_dirs(v: InodeView, base: Set<Name>, names: Seq<Name>)
    ensures
        forall|i: int| 0 <= i < names.len() ==> with_dirs(v, base, names).dirs.contains_key(
            base.insert(#[trigger] names[i]),
        ),
    decreases names.len(),
{
    if names.len() > 0 {
        lemma_listed_dirs(v, base, names.drop_last());
        assert forall|i: int| 0 <= i < names.len() implies with_dirs(
            v,
            base,
            names,
        ).dirs.contains_key(base.insert(#[trigger] names[i])) by {
            if i < names.len() - 1 {
                assert(names.drop_last()[i] == names[i]);
            }
        }
    }
}

pub(crate) proof fn lemma_listed_files(v: InodeView, names: Seq<Name>)
    ensures
        with_files(v, names).dirs == v.dirs,
        forall|i: int| 0 <= i < names.len() ==> with_files(v, names).files.contains_key(
            #[trigger] names[i],
        ),
    decreases names.len(),
{
    if names.len() > 0 {
        lemma_listed_files(v, names.drop_last());
        assert forall|i: int| 0 <= i < names.len() implies with_files(v, names).files.contains_key(
            #[trigger] names[i],
        ) by {
            if i < names.len() - 1 {
                assert(names.drop_last()[i] == names[i]);
            }
        }
    }
}

/// What was listed is found under the inode of its entry, and looking it up
/// changes nothing more.
pub proof fn listed_entries_are_found(fs: TagView, ino: u64, name: Name)
    requires
        consistent(fs.state),
        inodes_in_order(fs.state.inodes),
        fs.shown(ino) is Ok,
        fs.shown(ino).unwrap().tags.finite(),
        fs.shown(ino).unwrap().files.finite(),
        fs.can_list(ino),
    ensures
        ({
            let sh = fs.shown(ino).unwrap();
            let after = fs.listed(ino);
            &&& sh.files.contains(name) ==> after.after_lookup(ino, name) == after
                && after.lookup_result(ino, name) == Ok::<(u64, TargetView), Errno>(
                (
                    after.file_entry(name).inode,
                    TargetView::File(fs.full(fs.state.files[name].ffn)),
                ),
            )
            &&& sh.tags.contains(name) && !is_reserved(ino, name) && !is_shared(fs, ino, name)
                ==> after.after_lookup(ino, name) == after && after.lookup_result(ino, name)
                == Ok::<(u64, TargetView), Errno>(
                (after.tag_entry(fs.base_tags(ino), name).inode, TargetView::Dir),
            )
        }),
{
    let sh = fs.shown(ino).unwrap();
    let after = fs.listed(ino);
    let base = fs.base_tags(ino);
    let v = fs.state.inodes;
    let tags = sorted_names(sh.tags);
    let files = sorted_names(sh.files);
    lemma_sorted_names(sh.tags);
    lemma_sorted_names(sh.files);
    listing_keeps_order(v, base, tags, files);
    lemma_listed_dirs(v, base, tags);
    lemma_listed_files(with_dirs(v, base, tags), files);
    let w = after.state.inodes;
    assert(after.node(ino) == fs.node(ino)) by {
        assert(v.nodes.contains_key(ino));
        match v.nodes[ino] {
            NodeView::Dir(t) => {
                assert(v.dirs.contains_key(t));
                assert(w.dirs.contains_key(t) && w.dirs[t] == ino);
            },
            NodeView::File(n) => {
                assert(v.files.contains_key(n));
            },
            NodeView::SpecialDir(_) => {},
        }
    }
    assert(after.state.files == fs.state.files && after.state.by_tags == fs.state.by_tags
        && after.state.tagdirs == fs.state.tagdirs);
    assert(after.base_tags(ino) == base);
    assert(after.state.avail_tags(base) =~= fs.state.avail_tags(base));
    assert(after.state.matching_files(base) =~= fs.state.matching_files(base));
    assert(after.state.matching_files(Set::empty()) =~= fs.state.matching_files(Set::empty()));
    assert(after.state.untagged_files() =~= fs.state.untagged_files());
    assert(after.named(ino, name) == fs.named(ino, name));
    lookups_find_what_is_shown(fs, ino, name);
    if sh.files.contains(name) {
        assert(files.to_set().contains(name));
        let i = choose|i: int| 0 <= i < files.len() && files[i] == name;
        assert(w.files.contains_key(files[i]));
    }
    if sh.tags.contains(name) {
        assert(tags.to_set().contains(name));
        let i = choose|i: int| 0 <= i < tags.len() && tags[i] == name;
        assert(w.dirs.contains_key(base.insert(tags[i])));
    }
}

/// A new tag is available in the directory that it was made in.
pub proof fn made_tag_is_available(s: FsView, tags: Set<Name>, name: Name)
    requires
        !tags.contains(name),
    ensures
        s.with_dir_for_tags(tags.insert(name)).avail_tags(tags).contains(name),
{
    let k = tags.insert(name);
    let r = s.with_dir_for_tags(k);
    assert(r.tagdirs.contains_key(k) && tags.subset_of(k) && k.contains(name));
}

proof fn lemma_no_tagdir(s: FsView, tags: Set<Name>, name: Name)
    requires
        !s.goes_further(tags.insert(name)),
    ensures
        !s.without_tagdir(tags.insert(name)).avail_tags(tags).contains(name),
{
    let r = s.without_tagdir(tags.insert(name));
    if r.avail_tags(tags).contains(name) {
        let k = choose|k: Set<Name>| #[trigger]
            r.tagdirs.contains_key(k) && tags.subset_of(k) && k.contains(name);
        assert(s.tagdirs.contains_key(k) && tags.insert(name).subset_of(k));
    }
}

/// A tag whose removal is done at once is not available in its directory.
pub proof fn tag_removed_at_once_is_gone(
    fs: TagView,
    parent: u64,
    tags: Set<Name>,
    name: Name,
    after: TagView,
)
    requires
        fs.node(parent) == Some(NodeView::Dir(tags)),
        fs.rmdir_step(parent, name) == StepView::End(after, Ok(OutcomeView::Done)),
    ensures
        !after.state.avail_tags(tags).contains(name),
{
    lemma_no_tagdir(fs.state, tags, name);
}

/// A tag whose removal is done is no longer available in its directory, whatever
/// came of the operations.
pub proof fn removed_tag_is_gone(
    fs: TagView,
    task: TaskView,
    reply: Reply,
    tags: Set<Name>,
    name: Name,
    after: TagView,
)
    requires
        task == (TaskView::RmdirLook { tags: tags.insert(name) }) || task == (TaskView::RmdirDrop {
            tags: tags.insert(name),
        }),
        task.fits(fs.state),
        fs.resumed(task, reply) == StepView::End(after, Ok(OutcomeView::Done)),
    ensures
        !after.state.avail_tags(tags).contains(name),
{
    let s = fs.state.without_first_dir(tags.insert(name));
    if s.goes_further(tags.insert(name)) {
        let k = choose|k: Set<Name>| #[trigger]
            s.tagdirs.contains_key(k) && tags.insert(name).subset_of(k) && k != tags.insert(name);
        assert(fs.state.tagdirs.contains_key(k));
    }
    lemma_no_tagdir(s, tags, name);
}

/// A tag that leads on to further ones is not removed: the request is refused and
/// changes nothing.
pub proof fn tag_with_further_ones_stays(fs: TagView, parent: u64, tags: Set<Name>, name: Name)
    requires
        fs.node(parent) == Some(NodeView::Dir(tags)),
        fs.state.goes_further(tags.insert(name)),
    ensures
        fs.rmdir_step(parent, name) matches StepView::End(after, Err(_)) && after == fs,
{
}

/// A new file is shown under its tags and in `_all`, and no other file is shown
/// elsewhere than before.
pub proof fn new_file_is_shown(s: FsView, bn: Name, tags: Set<Name>, ffn: Path, at: Set<Name>)
    requires
        consistent(s),
        !s.files.contains_key(bn),
    ensures
        s.with_new_file(bn, tags, ffn).matching_files(at) == (if at.subset_of(tags) {
            s.matching_files(at).insert(bn)
        } else {
            s.matching_files(at)
        }),
{
    let r = s.with_new_file(bn, tags, ffn);
    lemma_new_file(s, bn, tags, ffn);
    matching_is_having_all_tags(s, at);
    matching_is_having_all_tags(r, at);
    if at.subset_of(tags) {
        assert(r.matching_files(at) =~= s.matching_files(at).insert(bn));
    } else {
        assert(r.matching_files(at) =~= s.matching_files(at));
    }
}

/// A deleted file is shown nowhere, and every other file where it was.
pub proof fn deleted_file_is_gone(s: FsView, bn: Name, at: Set<Name>)
    requires
        consistent(s),
        s.files.contains_key(bn),
    ensures
        s.without_file(bn).matching_files(at) == s.matching_files(at).remove(bn),
        s.without_file(bn).untagged_files() == s.untagged_files().remove(bn),
{
    let r = s.without_file(bn);
    lemma_deleted_file(s, bn);
    matching_is_having_all_tags(s, at);
    matching_is_having_all_tags(r, at);
    assert(r.matching_files(at) =~= s.matching_files(at).remove(bn));
    assert(r.untagged_files() =~= s.untagged_files().remove(bn));
}

/// A renamed file is shown under its new name where it was under its old one.
pub proof fn renamed_file_is_shown(s: FsView, old: Name, new: Name, at: Set<Name>)
    requires
        consistent(s),
        s.files.contains_key(old),
        !s.files.contains_key(new),
    ensures
        s.with_renamed_file(old, new).files[new].tags == s.files[old].tags,
        s.with_renamed_file(old, new).matching_files(at) == (if s.matching_files(at).contains(old) {
            s.matching_files(at).remove(old).insert(new)
        } else {
            s.matching_files(at)
        }),
{
    let r = s.with_renamed_file(old, new);
    lemma_renamed_file(s, old, new);
    matching_is_having_all_tags(s, at);
    matching_is_having_all_tags(r, at);
    if s.matching_files(at).contains(old) {
        assert(r.matching_files(at) =~= s.matching_files(at).remove(old).insert(new));
    } else {
        assert(r.matching_files(at) =~= s.matching_files(at));
    }
}

/// The tags of a file after it was moved from `parent` to `new_parent`.
pub open spec fn moved_tags(fs: TagView, parent: u64, bn: Name, new_parent: u64) -> Set<Name> {
    let old_tags = fs.tags_before(parent, bn, new_parent).unwrap();
    let new_tags = fs.tags_after(parent, bn, new_parent).unwrap();
    fs.state.changed_tags(bn, new_tags.difference(old_tags), old_tags.difference(new_tags))
}

/// A file that is moved from one tag directory to another loses the tags of the
/// first that the second does not have, gets those of the second, and keeps the
/// others.
pub proof fn moving_between_tags_retags(
    fs: TagView,
    parent: u64,
    bn: Name,
    new_parent: u64,
    from: Set<Name>,
    to: Set<Name>,
)
    requires
        parent != ROOT_INODE,
        new_parent != ROOT_INODE,
        fs.node(parent) == Some(NodeView::Dir(from)),
        fs.node(new_parent) == Some(NodeView::Dir(to)),
        fs.state.files.contains_key(bn),
        from.subset_of(fs.state.files[bn].tags),
    ensures
        moved_tags(fs, parent, bn, new_parent) == fs.state.files[bn].tags.difference(from).union(to),
{
    assert(moved_tags(fs, parent, bn, new_parent) =~= fs.state.files[bn].tags.difference(
        from,
    ).union(to));
}

/// A file that is moved from `_all` into a tag directory gets the tags of that
/// directory and keeps its own.
pub proof fn moving_into_a_tag_adds_it(fs: TagView, bn: Name, new_parent: u64, to: Set<Name>)
    requires
        fs.node(ALL_INODE) == Some(NodeView::SpecialDir(SpecialKind::All)),
        new_parent != ROOT_INODE,
        fs.node(new_parent) == Some(NodeView::Dir(to)),
        fs.state.files.contains_key(bn),
    ensures
        moved_tags(fs, ALL_INODE, bn, new_parent) == fs.state.files[bn].tags.union(to),
{
    assert(moved_tags(fs, ALL_INODE, bn, new_parent) =~= fs.state.files[bn].tags.union(to));
}

/// A file that is moved out of a tag directory, be it to `_all`, to `_untagged`
/// or to the root, loses the tags of that directory and keeps the others.
pub proof fn moving_out_of_a_tag_removes_it(
    fs: TagView,
    parent: u64,
    bn: Name,
    new_parent: u64,
    from: Set<Name>,
)
    requires
        inodes_in_order(fs.state.inodes),
        parent != ROOT_INODE,
        fs.node(parent) == Some(NodeView::Dir(from)),
        new_parent == ALL_INODE || new_parent == UNTAGGED_INODE || new_parent == ROOT_INODE,
        fs.state.files.contains_key(bn),
    ensures
        moved_tags(fs, parent, bn, new_parent) == fs.state.files[bn].tags.difference(from),
{
    assert(moved_tags(fs, parent, bn, new_parent) =~= fs.state.files[bn].tags.difference(from));
}

/// Tags that a file did not have and that are added and taken off again leave it
/// with the tags that it had.
pub proof fn adding_and_removing_tags_is_undone(
    s: FsView,
    bn: Name,
    tags: Set<Name>,
    there: Path,
    back: Path,
)
    requires
        s.files.contains_key(bn),
        tags.disjoint(s.files[bn].tags),
    ensures
        s.with_changed_tags(bn, tags, Set::empty(), there).with_changed_tags(
            bn,
            Set::empty(),
            tags,
            back,
        ).files[bn].tags == s.files[bn].tags,
{
    assert(s.files[bn].tags.union(tags).difference(Set::empty()).union(Set::empty()).difference(
        tags,
    ) =~= s.files[bn].tags);
}

/// A renamed tag leads to the same files under its new name, and the old name is
/// gone.
pub proof fn renamed_tag_leads_to_the_same_files(s: FsView, old: Name, new: Name, at: Set<Name>)
    requires
        consistent(s),
        old != new,
        !s.by_tags.contains_key(new),
        !at.contains(new),
    ensures
        s.with_renamed_tag(old, new).matching_files(renamed_tags(at, old, new))
            == s.matching_files(at),
        s.with_renamed_tag(old, new).untagged_files() == s.untagged_files(),
        !s.with_renamed_tag(old, new).by_tags.contains_key(old),
        forall|n: Name| #[trigger]
            s.with_renamed_tag(old, new).files.contains_key(n)
                ==> !s.with_renamed_tag(old, new).files[n].tags.contains(old),
{
    let r = s.with_renamed_tag(old, new);
    lemma_renamed_tag(s, old, new);
    let to = renamed_tags(at, old, new);
    matching_is_having_all_tags(s, at);
    matching_is_having_all_tags(r, to);
    assert forall|n: Name| s.files.contains_key(n) implies #[trigger] to.subset_of(r.files[n].tags)
        == at.subset_of(s.files[n].tags) by {
        let f = s.files[n].tags;
        let g = r.files[n].tags;
        assert(r.files[n] == renamed_entry(s.files[n], old, new));
        assert(!f.contains(new));
        if at.subset_of(f) {
            assert forall|t: Name| to.contains(t) implies g.contains(t) by {}
        }
        if to.subset_of(g) {
            assert forall|t: Name| at.contains(t) implies f.contains(t) by {
                if t == old {
                    assert(to.contains(new));
                    assert(g.contains(new));
                } else {
                    assert(to.contains(t));
                    assert(g.contains(t));
                }
            }
        }
    }
    assert forall|n: Name| s.files.contains_key(n) implies (#[trigger] r.files[n].tags == Set::<
        Name,
    >::empty()) == (s.files[n].tags == Set::<Name>::empty()) by {
        if s.files[n].tags.contains(old) {
            assert(r.files[n].tags.contains(new));
        }
    }
    assert(r.matching_files(to) =~= s.matching_files(at));
    assert(r.untagged_files() =~= s.untagged_files());
}

/// A tag that is renamed and renamed back leaves every file with the tags that it
/// had.
pub proof fn renaming_a_tag_is_undone(s: FsView, old: Name, new: Name, n: Name)
    requires
        consistent(s),
        old != new,
        !s.by_tags.contains_key(new),
        s.files.contains_key(n),
    ensures
        s.with_renamed_tag(old, new).with_renamed_tag(new, old).files[n].tags == s.files[n].tags,
{
    let f = s.files[n].tags;
    assert(!f.contains(new));
    assert(renamed_tags(renamed_tags(f, old, new), new, old) =~= f);
}

} // verus!
