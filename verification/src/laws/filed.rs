//! A file's tags are the names of the directories that it is in.
use vstd::prelude::*;
use vstd::set_lib::lemma_set_subset_finite;
use vstd::utf8::*;

use crate::inode::NodeView;
use crate::laws::plain::{
    lemma_encode_plain, lemma_join_name, lemma_name_tags_plain, lemma_path_of_plain, lemma_placed,
    lemma_plain_dir, lemma_relocated, lemma_replaced, lemma_replaced_above, plain, plain_path,
    plain_tags,
};
use crate::laws::requests::{starts, Request};
use crate::names::{lemma_sorted_names, sorted_names, Name, Path};
use crate::ops::{placed, Reply, StepView, TaskView};
use crate::path::{is_name, leads_to, relocated};
use crate::scanner::{dir_of, file_tags, name_tags, FileView};
use crate::sorted_map::added;
use crate::state::{
    first_path, is_rename_plan, lemma_first_path, moved_entry, moves_into, rename_point,
    renamed_dir, renamed_entry, renamed_tagdirs, renamed_tags, replaced, replaced_above, spelled,
    tagged_dir, FsView,
};
use crate::tagfs::TagView;
use crate::text::text_of;

verus! {

/// A file whose tags are the names of the directories above it.
pub open spec fn is_filed(f: FileView) -> bool {
    plain_path(f.ffn) && f.ffn.len() > 0 && name_tags(dir_of(f.ffn)) == f.tags
}

/// The directories of all sets of tags.
pub open spec fn all_dirs(m: Map<Set<Name>, Set<Path>>) -> Set<Path> {
    Set::new(|p: Path| exists|k: Set<Name>| #[trigger] m.contains_key(k) && m[k].contains(p))
}

pub(crate) proof fn lemma_dirs_finite(m: Map<Set<Name>, Set<Path>>, k: Set<Name>)
    requires
        all_dirs(m).finite(),
        m.contains_key(k),
    ensures
        m[k].finite(),
{
    assert forall|p: Path| #[trigger] m[k].contains(p) implies all_dirs(m).contains(p) by {
        assert(m.contains_key(k) && m[k].contains(p));
    }
    lemma_set_subset_finite(all_dirs(m), m[k]);
}

/// Every file has the tags of its place, every directory is known under the tags
/// of its place, and all names are plain.
pub open spec fn filed(s: FsView) -> bool {
    &&& forall|n: Name| #[trigger] s.files.contains_key(n) ==> plain(n) && is_filed(s.files[n])
    &&& forall|k: Set<Name>| #[trigger] s.tagdirs.contains_key(k) ==> plain_tags(k)
    &&& all_dirs(s.tagdirs).finite()
    &&& forall|k: Set<Name>, p: Path|
        #![trigger s.tagdirs[k].contains(p)]
        s.tagdirs.contains_key(k) && s.tagdirs[k].contains(p) ==> plain_path(p) && name_tags(p) == k
    &&& forall|i: u64| #[trigger]
        s.inodes.nodes.contains_key(i) ==> (s.inodes.nodes[i] matches NodeView::Dir(k)
            ==> plain_tags(k))
}

/// The tags of a file are the names of the directories above it.
pub proof fn tags_are_directory_names(s: FsView, n: Name)
    requires
        filed(s),
        s.files.contains_key(n),
    ensures
        file_tags(s.files[n].ffn) == s.files[n].tags,
{
    lemma_plain_dir(s.files[n].ffn);
}

/// The directory for a set of tags has these tags.
pub proof fn directory_for_tags_has_them(s: FsView, tags: Set<Name>)
    requires
        filed(s),
        plain_tags(tags),
    ensures
        plain_path(s.dir_for_tags(tags)),
        name_tags(s.dir_for_tags(tags)) == tags,
        filed(s.with_dir_for_tags(tags)),
        s.with_dir_for_tags(tags).tagdirs.contains_key(tags),
        s.with_dir_for_tags(tags).tagdirs[tags].contains(s.dir_for_tags(tags)),
{
    if s.knows_dir(tags) {
        let dirs = s.tagdirs[tags];
        lemma_dirs_finite(s.tagdirs, tags);
        lemma_first_path(dirs);
        assert(dirs.contains(first_path(dirs)));
    } else {
        let q = sorted_names(tags);
        lemma_sorted_names(tags);
        assert forall|i: int| 0 <= i < q.len() implies plain(#[trigger] q[i]) by {
            assert(q.to_set().contains(q[i]));
        }
        lemma_path_of_plain(q);
        lemma_known_dir(s, tags, s.dir_for_tags(tags));
        let r = s.with_dir_for_tags(tags);
        lemma_filed_alike(
            FsView { tagdirs: added(s.tagdirs, tags, s.dir_for_tags(tags)), ..s },
            r,
        );
    }
}

pub(crate) proof fn lemma_known_dir(s: FsView, tags: Set<Name>, dir: Path)
    requires
        filed(s),
        plain_path(dir),
        name_tags(dir) == tags,
    ensures
        filed(FsView { tagdirs: added(s.tagdirs, tags, dir), ..s }),
{
    let r = FsView { tagdirs: added(s.tagdirs, tags, dir), ..s };
    lemma_name_tags_plain(dir);
    assert forall|p: Path| #[trigger] all_dirs(r.tagdirs).contains(p) implies all_dirs(
        s.tagdirs,
    ).insert(dir).contains(p) by {
        let k = choose|k: Set<Name>| #[trigger]
            r.tagdirs.contains_key(k) && r.tagdirs[k].contains(p);
        if p != dir {
            assert(s.tagdirs.contains_key(k) && s.tagdirs[k].contains(p));
        }
    }
    lemma_set_subset_finite(all_dirs(s.tagdirs).insert(dir), all_dirs(r.tagdirs));
    assert forall|k: Set<Name>, p: Path|
        #![trigger r.tagdirs[k].contains(p)]
        r.tagdirs.contains_key(k) && r.tagdirs[k].contains(p) implies plain_path(p) && name_tags(p)
        == k by {
        if k != tags || p != dir {
            assert(s.tagdirs[k].contains(p));
        }
    }
    assert forall|n: Name| #[trigger] r.files.contains_key(n) implies plain(n) && is_filed(
        r.files[n],
    ) by {
        assert(s.files.contains_key(n));
    }
}

/// Which files are listed under a tag does not matter, nor which inodes there
/// are as long as they stand for plain tags.
pub(crate) proof fn lemma_filed_alike(s: FsView, r: FsView)
    requires
        filed(s),
        r.files == s.files,
        r.tagdirs == s.tagdirs,
        forall|i: u64| #[trigger]
            r.inodes.nodes.contains_key(i) ==> (r.inodes.nodes[i] matches NodeView::Dir(k)
                ==> plain_tags(k)),
    ensures
        filed(r),
{
    assert forall|k: Set<Name>, p: Path|
        #![trigger r.tagdirs[k].contains(p)]
        r.tagdirs.contains_key(k) && r.tagdirs[k].contains(p) implies plain_path(p) && name_tags(p)
        == k by {
        assert(s.tagdirs[k].contains(p));
    }
}

/// A file is put in the place for its tags.
pub(crate) proof fn lemma_with_file(s: FsView, r: FsView, bn: Name)
    requires
        filed(s),
        r.tagdirs == s.tagdirs,
        forall|n: Name| #[trigger]
            r.files.contains_key(n) ==> n == bn || s.files.contains_key(n) && r.files[n]
                == s.files[n],
        r.files.contains_key(bn) ==> plain(bn) && is_filed(r.files[bn]),
        forall|i: u64| #[trigger]
            r.inodes.nodes.contains_key(i) ==> (r.inodes.nodes[i] matches NodeView::Dir(k)
                ==> plain_tags(k)),
    ensures
        filed(r),
{
    assert forall|k: Set<Name>, p: Path|
        #![trigger r.tagdirs[k].contains(p)]
        r.tagdirs.contains_key(k) && r.tagdirs[k].contains(p) implies plain_path(p) && name_tags(p)
        == k by {
        assert(s.tagdirs[k].contains(p));
    }
}

proof fn lemma_renamed_dirs_finite(m: Map<Set<Name>, Set<Path>>, old: Name, new: Name)
    requires
        all_dirs(m).finite(),
    ensures
        all_dirs(renamed_tagdirs(m, old, new)).finite(),
{
    let f = |p: Path| replaced(p, old, new);
    let was = all_dirs(m);
    let r = renamed_tagdirs(m, old, new);
    let all = was.union(was.map(f));
    was.lemma_map_finite(f);
    assert forall|q: Path| #[trigger] all_dirs(r).contains(q) implies all.contains(q) by {
        let t = choose|t: Set<Name>| #[trigger] r.contains_key(t) && r[t].contains(q);
        let (k, p) = choose|k: Set<Name>, p: Path|
            #![trigger m.contains_key(k), m[k].contains(p)]
            m.contains_key(k) && renamed_tags(k, old, new) == t && m[k].contains(p) && q == (
            if k.contains(old) {
                replaced(p, old, new)
            } else {
                p
            });
        assert(was.contains(p));
        assert(was.map(f).contains(f(p)));
    }
    lemma_set_subset_finite(all, all_dirs(r));
}

/// A renamed tag leaves every file with the tags of its place.
pub proof fn lemma_renamed_tag_filed(s: FsView, old: Name, new: Name)
    requires
        filed(s),
        plain(new),
    ensures
        filed(s.with_renamed_tag(old, new)),
{
    let r = s.with_renamed_tag(old, new);
    assert forall|n: Name| #[trigger] r.files.contains_key(n) implies plain(n) && is_filed(
        r.files[n],
    ) by {
        assert(s.files.contains_key(n));
        let f = s.files[n];
        assert(r.files[n] == renamed_entry(f, old, new));
        if f.tags.contains(old) {
            lemma_plain_dir(f.ffn);
            lemma_replaced_above(f.ffn, old, new);
            let p = replaced_above(f.ffn, old, new);
            lemma_plain_dir(p);
            lemma_replaced(dir_of(f.ffn), old, new);
            assert(p.drop_last() =~= replaced(dir_of(f.ffn), old, new));
        }
    }
    assert forall|k: Set<Name>, q: Path|
        #![trigger r.tagdirs[k].contains(q)]
        r.tagdirs.contains_key(k) && r.tagdirs[k].contains(q) implies plain_path(q) && name_tags(q)
        == k by {
        let (m, p) = choose|m: Set<Name>, p: Path|
            #![trigger s.tagdirs.contains_key(m), s.tagdirs[m].contains(p)]
            s.tagdirs.contains_key(m) && renamed_tags(m, old, new) == k && s.tagdirs[m].contains(p)
                && q == (if m.contains(old) {
                replaced(p, old, new)
            } else {
                p
            });
        assert(s.tagdirs[m].contains(p));
        lemma_replaced(p, old, new);
    }
    lemma_renamed_dirs_finite(s.tagdirs, old, new);
    assert forall|k: Set<Name>| #[trigger] r.tagdirs.contains_key(k) implies plain_tags(k) by {
        let m = choose|m: Set<Name>| #[trigger]
            s.tagdirs.contains_key(m) && renamed_tags(m, old, new) == k;
        assert(plain_tags(m));
        assert forall|t: Name| #[trigger] k.contains(t) implies plain(t) by {
            if t != new {
                assert(m.contains(t));
            }
        }
    }
    assert forall|i: u64| #[trigger] r.inodes.nodes.contains_key(i) implies (r.inodes.nodes[i] matches NodeView::Dir(
        k,
    ) ==> plain_tags(k)) by {
        assert(s.inodes.nodes.contains_key(i));
    }
}

/// The moves of a plan are from one plain path to another.
pub open spec fn plain_moves(plan: Seq<(Path, Path)>) -> bool {
    forall|i: int|
        0 <= i < plan.len() ==> plain_path((#[trigger] plan[i]).0) && plain_path(plan[i].1)
            && plan[i].1.len() > 0
}

/// A moved directory leaves every file with the tags of its place.
pub proof fn lemma_moved_dir_filed(s: FsView, a: Path, b: Path)
    requires
        filed(s),
        plain_path(b),
        b.len() > 0,
    ensures
        filed(s.with_moved_dir(a, b)),
{
    let r = s.with_moved_dir(a, b);
    assert forall|n: Name| #[trigger] r.files.contains_key(n) implies plain(n) && is_filed(
        r.files[n],
    ) by {
        assert(s.files.contains_key(n));
        let f = s.files[n];
        assert(r.files[n] == moved_entry(f, a, b));
        if leads_to(a, f.ffn) {
            lemma_relocated(f.ffn, a, b);
            lemma_plain_dir(relocated(f.ffn, a, b));
        }
    }
    assert forall|t: Set<Name>, q: Path|
        #![trigger r.tagdirs[t].contains(q)]
        r.tagdirs.contains_key(t) && r.tagdirs[t].contains(q) implies plain_path(q) && name_tags(q)
        == t by {
        let (k, p) = choose|k: Set<Name>, p: Path| #[trigger]
            moves_into(s.tagdirs, k, p, a, b, t, q);
        assert(s.tagdirs[k].contains(p));
        if leads_to(a, p) {
            lemma_relocated(p, a, b);
        }
    }
    assert forall|t: Set<Name>| #[trigger] r.tagdirs.contains_key(t) implies plain_tags(t) by {
        let (k, p, q) = choose|k: Set<Name>, p: Path, q: Path| #[trigger]
            moves_into(s.tagdirs, k, p, a, b, t, q);
        assert(r.tagdirs[t].contains(q));
        lemma_name_tags_plain(q);
    }
    let f = |p: Path| relocated(p, a, b);
    let was = all_dirs(s.tagdirs);
    was.lemma_map_finite(f);
    assert forall|q: Path| #[trigger] all_dirs(r.tagdirs).contains(q) implies was.map(f).contains(
        q,
    ) by {
        let t = choose|t: Set<Name>| #[trigger]
            r.tagdirs.contains_key(t) && r.tagdirs[t].contains(q);
        let (k, p) = choose|k: Set<Name>, p: Path| #[trigger]
            moves_into(s.tagdirs, k, p, a, b, t, q);
        assert(was.contains(p));
        assert(f(p) == q);
    }
    lemma_set_subset_finite(was.map(f), all_dirs(r.tagdirs));
}

pub(crate) proof fn lemma_moved_dirs_filed(s: FsView, plan: Seq<(Path, Path)>)
    requires
        filed(s),
        plain_moves(plan),
    ensures
        filed(s.with_moved_dirs(plan)),
    decreases plan.len(),
{
    if plan.len() > 0 {
        let rest = plan.drop_last();
        assert forall|i: int| 0 <= i < rest.len() implies plain_path((#[trigger] rest[i]).0)
            && plain_path(rest[i].1) && rest[i].1.len() > 0 by {
            assert(rest[i] == plan[i]);
        }
        lemma_moved_dirs_filed(s, rest);
        assert(plain_path(plan[plan.len() - 1].1));
        lemma_moved_dir_filed(s.with_moved_dirs(rest), plan.last().0, plan.last().1);
    }
}

/// A directory that has to be renamed has a plain path, and so has its new place.
pub(crate) proof fn lemma_point_plain(p: Path, old: Name, new: Name, i: int)
    requires
        plain_path(p),
        plain(new),
        spelled(p, old, i),
    ensures
        renamed_dir(p, i, new) == (p.take(i + 1), p.take(i).push(encode_utf8(new))),
        plain_path(renamed_dir(p, i, new).0),
        plain_path(renamed_dir(p, i, new).1),
{
    let x = renamed_dir(p, i, new);
    lemma_encode_plain(new);
    lemma_join_name(p.take(i), encode_utf8(new));
    assert forall|j: int| 0 <= j < x.0.len() implies is_name(#[trigger] x.0[j]) && plain(
        text_of(x.0[j]),
    ) by {
        assert(x.0[j] == p[j]);
    }
    assert forall|j: int| 0 <= j < x.1.len() implies is_name(#[trigger] x.1[j]) && plain(
        text_of(x.1[j]),
    ) by {
        if j < i {
            assert(x.1[j] == p[j]);
        }
    }
}

proof fn lemma_plan_plain(s: FsView, old: Name, new: Name, plan: Seq<(Path, Path)>)
    requires
        filed(s),
        plain(new),
        is_rename_plan(plan, s.tagdirs, old, new),
    ensures
        plain_moves(plan),
{
    assert forall|i: int| 0 <= i < plan.len() implies plain_path((#[trigger] plan[i]).0)
        && plain_path(plan[i].1) && plan[i].1.len() > 0 by {
        assert(plan.contains(plan[i]));
        let p = choose|p: Path| #[trigger]
            tagged_dir(s.tagdirs, old, p) && rename_point(p, old, new, plan[i]);
        let k = choose|k: Set<Name>| #[trigger]
            s.tagdirs.contains_key(k) && k.contains(old) && s.tagdirs[k].contains(p);
        assert(s.tagdirs[k].contains(p));
        let j = choose|j: int| #[trigger]
            spelled(p, old, j) && plan[i] == renamed_dir(p, j, new);
        lemma_point_plain(p, old, new, j);
    }
}

/// The names of a request are plain.
pub open spec fn well_named(request: Request) -> bool {
    match request {
        Request::Dir { tags } => plain_tags(tags),
        Request::Mkdir { name, .. } => plain(name),
        Request::Create { bn, .. } => plain(bn),
        Request::RenameFile { new_bn, .. } => plain(new_bn),
        Request::Retag { add, .. } => plain_tags(add),
        Request::RenameTag { new, .. } => plain(new),
        Request::Rename { new_name, .. } => plain(new_name),
        _ => true,
    }
}

/// The names of a task are plain, and the place that it has chosen for a file is
/// one for the file's tags.
pub open spec fn task_filed(s: FsView, task: TaskView) -> bool {
    match task {
        TaskView::Dir { tags } => plain_tags(tags),
        TaskView::Mkdir { tags } => plain_tags(tags),
        TaskView::CreateDir { bn, tags } => plain(bn) && plain_tags(tags),
        TaskView::CreateFile { bn, tags, ffn } => plain(bn) && is_filed(FileView { ffn, tags }),
        TaskView::RenameLook { new_bn, add, .. } => plain(new_bn) && plain_tags(add),
        TaskView::RenameMove { new_bn, add, .. } => plain(new_bn) && plain_tags(add),
        TaskView::RetagDir { add, .. } => plain_tags(add),
        TaskView::RetagLook { bn, add, remove, ffn } => plain_tags(add) && is_filed(
            FileView { ffn, tags: s.changed_tags(bn, add, remove) },
        ),
        TaskView::RetagMove { bn, add, remove, ffn } => plain_tags(add) && is_filed(
            FileView { ffn, tags: s.changed_tags(bn, add, remove) },
        ),
        TaskView::TagLookOld { new, plan, .. } => plain(new) && plain_moves(plan),
        TaskView::TagLookNew { new, plan, .. } => plain(new) && plain_moves(plan),
        TaskView::TagMove { new, plan, .. } => plain(new) && plain_moves(plan),
        _ => true,
    }
}

/// In the state of a step every file has the tags of its place.
pub open spec fn filed_step(step: StepView) -> bool {
    match step {
        StepView::Ask(_, fs, task) => filed(fs.state) && task_filed(fs.state, task),
        StepView::End(fs, _) => filed(fs.state),
    }
}

pub(crate) proof fn lemma_changed_tags_plain(s: FsView, bn: Name, add: Set<Name>, remove: Set<Name>)
    requires
        filed(s),
        s.files.contains_key(bn),
        plain_tags(add),
    ensures
        plain_tags(s.changed_tags(bn, add, remove)),
{
    let f = s.files[bn];
    lemma_plain_dir(f.ffn);
    lemma_name_tags_plain(dir_of(f.ffn));
    let all = f.tags.union(add);
    assert(all.finite());
    lemma_set_subset_finite(all, s.changed_tags(bn, add, remove));
}

pub(crate) proof fn lemma_mkdir_filed(fs: TagView, tags: Set<Name>)
    requires
        filed(fs.state),
        plain_tags(tags),
    ensures
        filed_step(fs.mkdir_done(tags)),
{
    directory_for_tags_has_them(fs.state, tags);
    let s = fs.state.with_dir_for_tags(tags);
    let r = FsView { inodes: s.inodes.with_dir(tags), ..s };
    assert forall|i: u64| #[trigger] r.inodes.nodes.contains_key(i) implies (r.inodes.nodes[i] matches NodeView::Dir(
        k,
    ) ==> plain_tags(k)) by {
        if r.inodes.nodes[i] != NodeView::Dir(tags) {
            assert(s.inodes.nodes.contains_key(i));
        }
    }
    lemma_filed_alike(s, r);
}

proof fn lemma_create_filed(fs: TagView, bn: Name, tags: Set<Name>)
    requires
        filed(fs.state),
        plain(bn),
        plain_tags(tags),
    ensures
        filed_step(fs.create_placed(bn, tags)),
{
    directory_for_tags_has_them(fs.state, tags);
    lemma_placed(fs.state.dir_for_tags(tags), bn);
}

proof fn lemma_retag_filed(fs: TagView, bn: Name, add: Set<Name>, remove: Set<Name>)
    requires
        filed(fs.state),
        plain_tags(add),
    ensures
        filed_step(fs.retag_step(bn, add, remove)),
        fs.state.files.contains_key(bn) ==> filed_step(fs.retag_placed(bn, add, remove)),
{
    if fs.state.files.contains_key(bn) {
        let tags = fs.state.changed_tags(bn, add, remove);
        lemma_changed_tags_plain(fs.state, bn, add, remove);
        directory_for_tags_has_them(fs.state, tags);
        let ffn = placed(fs.state.dir_for_tags(tags), bn);
        lemma_placed(fs.state.dir_for_tags(tags), bn);
        let s = fs.state.with_dir_for_tags(tags);
        assert(s.files == fs.state.files);
        assert(s.changed_tags(bn, add, remove) == tags);
        lemma_retag_done_filed(s, bn, add, remove, ffn);
    }
}

pub(crate) proof fn lemma_retag_done_filed(
    s: FsView,
    bn: Name,
    add: Set<Name>,
    remove: Set<Name>,
    ffn: Path,
)
    requires
        filed(s),
        s.files.contains_key(bn),
        is_filed(FileView { ffn, tags: s.changed_tags(bn, add, remove) }),
    ensures
        filed(s.with_changed_tags(bn, add, remove, ffn)),
{
    lemma_with_file(s, s.with_changed_tags(bn, add, remove, ffn), bn);
}

pub(crate) proof fn lemma_rename_file_filed(s: FsView, old: Name, new: Name)
    requires
        filed(s),
        s.files.contains_key(old),
        plain(new),
    ensures
        filed(s.with_renamed_file(old, new)),
{
    let f = s.files[old];
    lemma_plain_dir(f.ffn);
    lemma_placed(dir_of(f.ffn), new);
    lemma_with_file(s, s.with_renamed_file(old, new), new);
}

/// The tags of a directory are plain.
pub(crate) proof fn lemma_tags_at_plain(fs: TagView, ino: u64, bn: Name)
    requires
        filed(fs.state),
    ensures
        fs.tags_at(ino, bn) matches Some(tags) ==> plain_tags(tags),
        plain_tags(fs.tags_of(bn)),
{
    if fs.state.files.contains_key(bn) {
        let f = fs.state.files[bn];
        lemma_plain_dir(f.ffn);
        lemma_name_tags_plain(dir_of(f.ffn));
    }
    if fs.state.inodes.nodes.contains_key(ino) {
    }
}

proof fn lemma_tag_starts_filed(fs: TagView, old: Name, new: Name, step: StepView)
    requires
        filed(fs.state),
        plain(new),
        fs.starts_rename_tag(old, new, step),
    ensures
        filed_step(step),
{
    let plan = choose|plan: Seq<(Path, Path)>| #[trigger]
        is_rename_plan(plan, fs.state.tagdirs, old, new) && step == fs.rename_tag_step(
            old,
            new,
            plan,
        );
    lemma_plan_plain(fs.state, old, new, plan);
    lemma_renamed_tag_filed(fs.state, old, new);
}

/// Every request with plain names that starts leaves every file with the tags of
/// its place.
pub proof fn requests_start_filed(fs: TagView, request: Request, step: StepView)
    requires
        filed(fs.state),
        fs.state.inodes.next < u64::MAX,
        well_named(request),
        starts(fs, request, step),
    ensures
        filed_step(step),
{
    match request {
        Request::Dir { tags } => {
            directory_for_tags_has_them(fs.state, tags);
        },
        Request::Mkdir { parent, name } => {
            if let Some(NodeView::Dir(tags)) = fs.node(parent) {
                assert(plain_tags(tags));
                assert(plain_tags(tags.insert(name)));
                lemma_mkdir_filed(fs, tags.insert(name));
            }
        },
        Request::Create { parent, bn } => {
            lemma_tags_at_plain(fs, parent, bn);
            if let Some(tags) = fs.tags_at(parent, bn) {
                lemma_create_filed(fs, bn, tags);
            }
        },
        Request::Rmdir { parent, name } => {
            if let Some(NodeView::Dir(tags)) = fs.node(parent) {
                lemma_rmdir_filed(fs.state, tags.insert(name));
            }
        },
        Request::Retag { bn, add, remove } => {
            lemma_retag_filed(fs, bn, add, remove);
        },
        Request::RenameTag { old, new } => {
            lemma_tag_starts_filed(fs, old, new, step);
        },
        Request::Rename { parent, name, new_parent, new_name } => {
            lemma_tags_at_plain(fs, parent, name);
            lemma_tags_at_plain(fs, new_parent, name);
            match (
                fs.tags_before(parent, name, new_parent),
                fs.tags_after(parent, name, new_parent),
            ) {
                (Some(old_tags), Some(new_tags)) => {
                    if fs.is_tag(name) {
                        lemma_tag_starts_filed(fs, name, new_name, step);
                    }
                    let add = new_tags.difference(old_tags);
                    assert(plain_tags(new_tags)) by {
                        lemma_set_subset_finite(fs.tags_of(name), fs.tags_of(name).difference(old_tags));
                    }
                    lemma_set_subset_finite(new_tags, add);
                    assert(plain_tags(add));
                    lemma_retag_filed(fs, name, add, old_tags.difference(new_tags));
                },
                _ => {},
            }
        },
        _ => {},
    }
}

pub(crate) proof fn lemma_rmdir_filed(s: FsView, tags: Set<Name>)
    requires
        filed(s),
    ensures
        filed(s.without_tagdir(tags)),
{
    let r = s.without_tagdir(tags);
    assert forall|p: Path| #[trigger] all_dirs(r.tagdirs).contains(p) implies all_dirs(
        s.tagdirs,
    ).contains(p) by {
        let k = choose|k: Set<Name>| #[trigger]
            r.tagdirs.contains_key(k) && r.tagdirs[k].contains(p);
        assert(s.tagdirs.contains_key(k) && s.tagdirs[k].contains(p));
    }
    lemma_set_subset_finite(all_dirs(s.tagdirs), all_dirs(r.tagdirs));
    assert forall|k: Set<Name>, p: Path|
        #![trigger r.tagdirs[k].contains(p)]
        r.tagdirs.contains_key(k) && r.tagdirs[k].contains(p) implies plain_path(p) && name_tags(p)
        == k by {
        assert(s.tagdirs[k].contains(p));
    }
}

pub(crate) proof fn lemma_dir_gone_filed(s: FsView, tags: Set<Name>)
    requires
        filed(s),
        s.knows_dir(tags),
    ensures
        filed(s.without_first_dir(tags)),
{
    let r = s.without_first_dir(tags);
    assert forall|p: Path| #[trigger] all_dirs(r.tagdirs).contains(p) implies all_dirs(
        s.tagdirs,
    ).contains(p) by {
        let k = choose|k: Set<Name>| #[trigger]
            r.tagdirs.contains_key(k) && r.tagdirs[k].contains(p);
        assert(s.tagdirs.contains_key(k) && s.tagdirs[k].contains(p));
    }
    lemma_set_subset_finite(all_dirs(s.tagdirs), all_dirs(r.tagdirs));
    assert forall|k: Set<Name>, p: Path|
        #![trigger r.tagdirs[k].contains(p)]
        r.tagdirs.contains_key(k) && r.tagdirs[k].contains(p) implies plain_path(p) && name_tags(p)
        == k by {
        assert(s.tagdirs[k].contains(p));
    }
}

/// Every request that goes on leaves every file with the tags of its place,
/// whatever came of the operation.
pub proof fn requests_stay_filed(fs: TagView, task: TaskView, reply: Reply)
    requires
        filed(fs.state),
        task_filed(fs.state, task),
        task.fits(fs.state),
    ensures
        filed_step(fs.resumed(task, reply)),
{
    match task {
        TaskView::Dir { tags } => {
            directory_for_tags_has_them(fs.state, tags);
        },
        TaskView::Mkdir { tags } => {
            lemma_mkdir_filed(fs, tags);
        },
        TaskView::CreateDir { bn, tags } => {
            lemma_create_filed(fs, bn, tags);
        },
        TaskView::CreateFile { bn, tags, ffn } => {
            lemma_with_file(fs.state, fs.state.with_new_file(bn, tags, ffn), bn);
        },
        TaskView::Unlink { bn } => {
            lemma_with_file(fs.state, fs.state.without_file(bn), bn);
        },
        TaskView::RmdirLook { tags } => {
            lemma_dir_gone_filed(fs.state, tags);
            lemma_rmdir_filed(fs.state.without_first_dir(tags), tags);
        },
        TaskView::RmdirDrop { tags } => {
            lemma_dir_gone_filed(fs.state, tags);
            lemma_rmdir_filed(fs.state.without_first_dir(tags), tags);
        },
        TaskView::RenameMove { old_bn, new_bn, add, remove } => {
            lemma_rename_file_filed(fs.state, old_bn, new_bn);
            lemma_retag_filed(
                fs.with(fs.state.with_renamed_file(old_bn, new_bn)),
                new_bn,
                add,
                remove,
            );
        },
        TaskView::RetagDir { bn, add, remove } => {
            lemma_retag_filed(fs, bn, add, remove);
        },
        TaskView::RetagMove { bn, add, remove, ffn } => {
            lemma_retag_done_filed(fs.state, bn, add, remove, ffn);
        },
        TaskView::TagLookOld { old, new, plan, at } => {
            lemma_renamed_tag_filed(fs.state, old, new);
            let rest = plan.remove(at);
            assert forall|i: int| 0 <= i < rest.len() implies plain_path((#[trigger] rest[i]).0)
                && plain_path(rest[i].1) && rest[i].1.len() > 0 by {
                assert(rest[i] == (if i < at { plan[i] } else { plan[i + 1] }));
            }
        },
        TaskView::TagLookNew { old, new, .. } => {
            lemma_renamed_tag_filed(fs.state, old, new);
        },
        TaskView::TagMove { old, new, plan, at } => {
            lemma_renamed_tag_filed(fs.state, old, new);
            lemma_moved_dirs_filed(fs.state, plan.take(at));
        },
        _ => {},
    }
}

} // verus!
