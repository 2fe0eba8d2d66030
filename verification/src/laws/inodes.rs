//! Laws of inode numbers.
use vstd::prelude::*;

use crate::inode::{InodeView, NodeView, SpecialKind, ALL_INODE, ROOT_INODE, UNTAGGED_INODE};
use crate::laws::requests::{prepared, starts, Request};
use crate::listing::{with_dirs, with_files};
use crate::names::{Name, Path};
use crate::ops::{Reply, StepView, TaskView};
use crate::scanner::ScanView;
use crate::state::{given_up, renamed_inodes, FsView};
use crate::tagfs::TagView;

verus! {

/// `w` comes after `v`: no number is given out again, and a number that both use
/// stands for the same thing in both.
pub open spec fn comes_after(v: InodeView, w: InodeView) -> bool {
    &&& v.next <= w.next
    &&& forall|i: u64| #[trigger]
        w.nodes.contains_key(i) && i < v.next ==> v.nodes.contains_key(i) && v.nodes[i]
            == w.nodes[i]
}

/// A set of tags that gets an inode leaves the table in order.
pub proof fn dir_inode_keeps_order(v: InodeView, tags: Set<Name>)
    requires
        v.ok(),
        v.next < u64::MAX,
    ensures
        v.with_dir(tags).ok(),
        v.has_root() ==> v.with_dir(tags).has_root(),
        comes_after(v, v.with_dir(tags)),
        v.with_dir(tags).next <= v.next + 1,
{
    let w = v.with_dir(tags);
    if !v.dirs.contains_key(tags) {
        assert forall|i: u64| #[trigger] w.nodes.contains_key(i) implies {
            &&& 0 < i < w.next
            &&& match w.nodes[i] {
                NodeView::Dir(t) => w.dirs.contains_key(t) && w.dirs[t] == i,
                NodeView::File(bn) => w.files.contains_key(bn) && w.files[bn] == i,
                NodeView::SpecialDir(SpecialKind::All) => i == ALL_INODE,
                NodeView::SpecialDir(SpecialKind::Untagged) => i == UNTAGGED_INODE,
            }
        } by {
            if i != v.next {
                assert(v.nodes.contains_key(i));
            }
        }
        assert forall|t: Set<Name>| #[trigger] w.dirs.contains_key(t) implies w.nodes.contains_key(
            w.dirs[t],
        ) && w.nodes[w.dirs[t]] == NodeView::Dir(t) by {
            if t != tags {
                assert(v.dirs.contains_key(t));
            }
        }
        assert forall|n: Name| #[trigger] w.files.contains_key(n) implies w.nodes.contains_key(
            w.files[n],
        ) && w.nodes[w.files[n]] == NodeView::File(n) by {
            assert(v.files.contains_key(n));
        }
    }
}

/// A file that gets an inode leaves the table in order.
pub proof fn file_inode_keeps_order(v: InodeView, bn: Name)
    requires
        v.ok(),
        v.next < u64::MAX,
    ensures
        v.with_file(bn).ok(),
        v.has_root() ==> v.with_file(bn).has_root(),
        comes_after(v, v.with_file(bn)),
        v.with_file(bn).next <= v.next + 1,
{
    let w = v.with_file(bn);
    if !v.files.contains_key(bn) {
        assert forall|t: Set<Name>| #[trigger] w.dirs.contains_key(t) implies w.nodes.contains_key(
            w.dirs[t],
        ) && w.nodes[w.dirs[t]] == NodeView::Dir(t) by {
            assert(v.dirs.contains_key(t));
        }
        assert forall|n: Name| #[trigger] w.files.contains_key(n) implies w.nodes.contains_key(
            w.files[n],
        ) && w.nodes[w.files[n]] == NodeView::File(n) by {
            if n != bn {
                assert(v.files.contains_key(n));
            }
        }
    }
}

/// A set of tags that loses its inode leaves the table in order.
pub proof fn lost_dir_keeps_order(v: InodeView, tags: Set<Name>)
    requires
        v.ok(),
    ensures
        v.without_dir(tags).ok(),
        v.has_root() && tags != Set::<Name>::empty() ==> v.without_dir(tags).has_root(),
        comes_after(v, v.without_dir(tags)),
{
}

/// A file that loses its inode leaves the table in order.
pub proof fn lost_file_keeps_order(v: InodeView, bn: Name)
    requires
        v.ok(),
    ensures
        v.without_file(bn).ok(),
        v.has_root() ==> v.without_file(bn).has_root(),
        comes_after(v, v.without_file(bn)),
{
}

/// A renamed tag leaves the table in order.
pub proof fn renamed_tag_keeps_order(
    v: InodeView,
    tagdirs: Map<Set<Name>, Set<Path>>,
    old: Name,
    new: Name,
)
    requires
        v.ok(),
    ensures
        renamed_inodes(v, tagdirs, old, new).ok(),
        v.has_root() ==> renamed_inodes(v, tagdirs, old, new).has_root(),
        comes_after(v, renamed_inodes(v, tagdirs, old, new)),
{
    let w = renamed_inodes(v, tagdirs, old, new);
    assert forall|i: u64| #[trigger] w.nodes.contains_key(i) implies {
        match w.nodes[i] {
            NodeView::Dir(t) => w.dirs.contains_key(t) && w.dirs[t] == i,
            _ => true,
        }
    } by {
        assert(v.nodes.contains_key(i));
        match v.nodes[i] {
            NodeView::Dir(t) => {
                assert(v.dirs.contains_key(t) && v.dirs[t] == i);
            },
            _ => {},
        }
    }
    assert forall|t: Set<Name>| #[trigger] w.dirs.contains_key(t) implies w.nodes.contains_key(
        w.dirs[t],
    ) && w.nodes[w.dirs[t]] == NodeView::Dir(t) by {
        assert(v.dirs.contains_key(t));
    }
    assert forall|n: Name| #[trigger] w.files.contains_key(n) implies w.nodes.contains_key(
        w.files[n],
    ) && w.nodes[w.files[n]] == NodeView::File(n) by {
        assert(v.files.contains_key(n));
    }
    if v.has_root() {
        assert(w.nodes.contains_key(ROOT_INODE)) by {
            assert forall|t: Set<Name>, k: Set<Name>|
                #![trigger v.dirs.contains_key(t), tagdirs.contains_key(k)]
                v.dirs.contains_key(t) && v.dirs[t] == ROOT_INODE && tagdirs.contains_key(k)
                    && k.contains(old) implies given_up(k, old, new) != t by {
                assert(given_up(k, old, new).contains(old));
                assert(!Set::<Name>::empty().contains(old));
            }
        }
    }
}

/// Whoever asks for the inode of a set of tags again gets the same one, and
/// nothing changes.
pub proof fn dir_inode_is_lasting(v: InodeView, tags: Set<Name>)
    ensures
        v.with_dir(tags).with_dir(tags) == v.with_dir(tags),
        v.dirs.contains_key(tags) ==> v.with_dir(tags).dirs[tags] == v.dirs[tags],
{
}

/// Whoever asks for the inode of a file again gets the same one, and nothing
/// changes.
pub proof fn file_inode_is_lasting(v: InodeView, bn: Name)
    ensures
        v.with_file(bn).with_file(bn) == v.with_file(bn),
        v.files.contains_key(bn) ==> v.with_file(bn).files[bn] == v.files[bn],
{
}

/// Different things have different inodes, and none has a reserved one but the
/// root.
pub proof fn inodes_are_distinct(v: InodeView)
    requires
        v.ok(),
        v.has_root(),
    ensures
        forall|s: Set<Name>, t: Set<Name>|
            v.dirs.contains_key(s) && v.dirs.contains_key(t) && #[trigger] v.dirs[s]
                == #[trigger] v.dirs[t] ==> s == t,
        forall|m: Name, n: Name|
            v.files.contains_key(m) && v.files.contains_key(n) && #[trigger] v.files[m]
                == #[trigger] v.files[n] ==> m == n,
        forall|t: Set<Name>, n: Name|
            v.dirs.contains_key(t) && v.files.contains_key(n) ==> #[trigger] v.dirs[t]
                != #[trigger] v.files[n],
        forall|t: Set<Name>| #[trigger]
            v.dirs.contains_key(t) && t != Set::<Name>::empty() ==> v.dirs[t] > UNTAGGED_INODE,
        forall|n: Name| #[trigger] v.files.contains_key(n) ==> v.files[n] > UNTAGGED_INODE,
{
    assert forall|t: Set<Name>| #[trigger]
        v.dirs.contains_key(t) && t != Set::<Name>::empty() implies v.dirs[t] > UNTAGGED_INODE by {
        assert(v.nodes.contains_key(v.dirs[t]));
        assert(v.dirs[t] != ROOT_INODE);
    }
    assert forall|n: Name| #[trigger] v.files.contains_key(n) implies v.files[n] > UNTAGGED_INODE by {
        assert(v.nodes.contains_key(v.files[n]));
        assert(v.files[n] != ROOT_INODE);
    }
}

/// A renamed file has no inode under its old name and a new one under its new
/// name.
pub proof fn renamed_file_gets_a_new_inode(v: InodeView, old: Name, new: Name)
    requires
        v.ok(),
        v.next < u64::MAX,
        old != new,
        !v.files.contains_key(new),
    ensures
        ({
            let w = v.without_file(old).with_file(new);
            &&& !w.files.contains_key(old)
            &&& w.files.contains_key(new)
            &&& w.files[new] == v.next
            &&& w.nodes[w.files[new]] == NodeView::File(new)
            &&& v.files.contains_key(old) ==> !w.nodes.contains_key(v.files[old])
        }),
{
    if v.files.contains_key(old) {
        assert(v.nodes.contains_key(v.files[old]));
    }
}

/// What follows a table that follows another follows that one.
pub proof fn comes_after_is_transitive(u: InodeView, v: InodeView, w: InodeView)
    requires
        comes_after(u, v),
        comes_after(v, w),
    ensures
        comes_after(u, w),
{
    assert forall|i: u64| #[trigger]
        w.nodes.contains_key(i) && i < u.next implies u.nodes.contains_key(i) && u.nodes[i]
        == w.nodes[i] by {
        assert(v.nodes.contains_key(i));
    }
}

/// A listed directory leaves the table in order, and everything that has an
/// inode keeps it.
pub proof fn listing_keeps_order(v: InodeView, base: Set<Name>, tags: Seq<Name>, files: Seq<Name>)
    requires
        v.ok(),
        v.next + tags.len() + files.len() <= u64::MAX,
    ensures
        ({
            let w = with_files(with_dirs(v, base, tags), files);
            &&& w.ok()
            &&& v.has_root() ==> w.has_root()
            &&& comes_after(v, w)
            &&& v.dirs.submap_of(w.dirs)
            &&& v.files.submap_of(w.files)
            &&& w.next <= v.next + tags.len() + files.len()
        }),
    decreases tags.len() + files.len(),
{
    let mid = with_dirs(v, base, tags);
    if files.len() > 0 {
        listing_keeps_order(v, base, tags, files.drop_last());
        let u = with_files(mid, files.drop_last());
        let w = u.with_file(files.last());
        assert(with_files(mid, files) == w);
        file_inode_keeps_order(u, files.last());
        comes_after_is_transitive(v, u, w);
        assert(u.dirs.submap_of(w.dirs));
        assert(u.files.submap_of(w.files));
    } else if tags.len() > 0 {
        listing_keeps_order(v, base, tags.drop_last(), files);
        let u = with_dirs(v, base, tags.drop_last());
        let w = u.with_dir(base.insert(tags.last()));
        assert(with_files(u, files) == u);
        assert(mid == w && with_files(mid, files) == w);
        dir_inode_keeps_order(u, base.insert(tags.last()));
        comes_after_is_transitive(v, u, w);
        assert(u.dirs.submap_of(w.dirs));
        assert(u.files.submap_of(w.files));
    } else {
        assert(with_files(mid, files) == v);
    }
}

/// The inodes are in order, with one for the root.
pub open spec fn inodes_in_order(v: InodeView) -> bool {
    v.ok() && v.has_root()
}

/// The inodes of a step are in order and come after those of `v`.
pub open spec fn orderly_step(v: InodeView, step: StepView) -> bool {
    match step {
        StepView::Ask(_, fs, _) => inodes_in_order(fs.state.inodes) && comes_after(
            v,
            fs.state.inodes,
        ),
        StepView::End(fs, _) => inodes_in_order(fs.state.inodes) && comes_after(v, fs.state.inodes),
    }
}

/// The inodes are in order after a scan.
pub proof fn scan_has_inodes_in_order(scan: ScanView)
    ensures
        inodes_in_order(FsView::of_scan(scan).inodes),
{
}

/// Every request that starts keeps the inodes in order.
pub proof fn requests_start_orderly(fs: TagView, request: Request, step: StepView)
    requires
        inodes_in_order(fs.state.inodes),
        fs.state.inodes.next < u64::MAX,
        starts(fs, request, step),
    ensures
        orderly_step(fs.state.inodes, step),
{
    let v = fs.state.inodes;
    match request {
        Request::Mkdir { parent, name } => {
            if let Some(NodeView::Dir(tags)) = fs.node(parent) {
                dir_inode_keeps_order(v, tags.insert(name));
            }
        },
        Request::Rmdir { parent, name } => {
            if let Some(NodeView::Dir(tags)) = fs.node(parent) {
                assert(tags.insert(name).contains(name));
                lost_dir_keeps_order(v, tags.insert(name));
            }
        },
        Request::RenameTag { old, new } => {
            renamed_tag_keeps_order(v, fs.state.tagdirs, old, new);
        },
        Request::Rename { name, new_name, .. } => {
            renamed_tag_keeps_order(v, fs.state.tagdirs, name, new_name);
        },
        _ => {},
    }
}

/// Moved directories leave the inodes as they are.
proof fn lemma_moved_dirs_inodes(s: FsView, moves: Seq<(Path, Path)>)
    ensures
        s.with_moved_dirs(moves).inodes == s.inodes,
    decreases moves.len(),
{
    if moves.len() > 0 {
        lemma_moved_dirs_inodes(s, moves.drop_last());
    }
}

/// Every request that goes on keeps the inodes in order, whatever came of the
/// operation.
pub proof fn requests_stay_orderly(fs: TagView, task: TaskView, reply: Reply)
    requires
        inodes_in_order(fs.state.inodes),
        task.fits(fs.state),
        prepared(fs.state, task),
    ensures
        orderly_step(fs.state.inodes, fs.resumed(task, reply)),
{
    let v = fs.state.inodes;
    match task {
        TaskView::Mkdir { tags } => {
            dir_inode_keeps_order(v, tags);
        },
        TaskView::CreateFile { bn, .. } => {
            file_inode_keeps_order(v, bn);
        },
        TaskView::Unlink { bn } => {
            lost_file_keeps_order(v, bn);
        },
        TaskView::RmdirLook { tags, .. } => {
            lost_dir_keeps_order(v, tags);
        },
        TaskView::RmdirDrop { tags, .. } => {
            lost_dir_keeps_order(v, tags);
        },
        TaskView::RenameMove { old_bn, new_bn, .. } => {
            let u = v.without_file(old_bn);
            lost_file_keeps_order(v, old_bn);
            file_inode_keeps_order(u, new_bn);
            comes_after_is_transitive(v, u, u.with_file(new_bn));
        },
        TaskView::TagLookOld { old, new, .. } => {
            renamed_tag_keeps_order(v, fs.state.tagdirs, old, new);
        },
        TaskView::TagLookNew { old, new, .. } => {
            renamed_tag_keeps_order(v, fs.state.tagdirs, old, new);
        },
        TaskView::TagMove { old, new, plan, at } => {
            renamed_tag_keeps_order(v, fs.state.tagdirs, old, new);
            lemma_moved_dirs_inodes(fs.state, plan.take(at));
        },
        _ => {},
    }
}

} // verus!
