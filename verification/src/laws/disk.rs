//! What the index says of the disk is so, and stays so while requests go on.
use vstd::prelude::*;
use vstd::set_lib::lemma_set_subset_finite;

use crate::inode::NodeView;
use crate::laws::consistent::{consistent, matching_is_having_all_tags};
use crate::laws::disk_tags::{lemma_tag_goes_on, lemma_tag_starts, tag_on_disk};
use crate::laws::filed::{
    all_dirs, directory_for_tags_has_them, filed, is_filed, lemma_changed_tags_plain,
    lemma_dir_gone_filed, lemma_dirs_finite, lemma_mkdir_filed, lemma_rename_file_filed,
    lemma_retag_done_filed, lemma_rmdir_filed, lemma_tags_at_plain, lemma_with_file, task_filed,
    well_named,
};
use crate::laws::plain::{lemma_placed, lemma_plain_dir, plain, plain_path, plain_tags};
use crate::laws::requests::{prepared, starts, Request};
use crate::laws::scanned::{
    dirs_known, entries_ok, one_name_each, places, scan_finds_every_file, tree_dirs, tree_files,
};
use crate::names::{Name, Path};
use crate::ops::{placed, OpView, Reply, StepView, TaskView};
use crate::path::{is_name, leads_to, root_comp, SLASH};
use crate::scanner::{dir_of, empty_scan, name_tags, scan_entries, FileView, Found};
use crate::state::{first_path, lemma_first_path, FsView};
use crate::tagfs::TagView;
use crate::text::text_of;

verus! {

/// What is at a place on the disk: a directory, or a file with some contents.
pub enum Item {
    Dir,
    File(int),
}

/// Above everything on the disk there are directories.
pub open spec fn disk_ok(d: Map<Path, Item>) -> bool {
    forall|q: Path, i: int|
        #![trigger d.contains_key(q), q.take(i)]
        d.contains_key(q) && 0 < i < q.len() ==> d.contains_key(q.take(i)) && d[q.take(i)]
            == Item::Dir
}

/// The disk after what is at `a` was moved to `b`, where nothing was.
pub open spec fn moved(d: Map<Path, Item>, a: Path, b: Path) -> Map<Path, Item> {
    Map::new(
        |q: Path|
            if leads_to(b, q) {
                d.contains_key(a + q.skip(b.len() as int))
            } else {
                !leads_to(a, q) && d.contains_key(q)
            },
        |q: Path|
            if leads_to(b, q) {
                d[a + q.skip(b.len() as int)]
            } else {
                d[q]
            },
    )
}

/// Everything is still there, and what is new are directories.
pub open spec fn dirs_made(d: Map<Path, Item>, after: Map<Path, Item>) -> bool {
    &&& forall|q: Path| #[trigger] d.contains_key(q) ==> after.contains_key(q) && after[q] == d[q]
    &&& forall|q: Path| #[trigger]
        after.contains_key(q) && !d.contains_key(q) ==> after[q] == Item::Dir
}

/// What the system does with an operation. It tells the truth of what exists. An
/// operation that fails changes nothing, but for directories on the way to one
/// that could not be made. A new file holds `contents`.
pub open spec fn performs(
    d: Map<Path, Item>,
    op: OpView,
    after: Map<Path, Item>,
    reply: Reply,
    contents: int,
) -> bool {
    match op {
        OpView::Exists(p) => after == d && reply == Ok::<bool, Option<i32>>(d.contains_key(p)),
        OpView::CreateDirAll(p) => dirs_made(d, after) && (reply is Ok ==> after.contains_key(p)
            && after[p] == Item::Dir),
        OpView::Rename(a, b) => if reply is Ok {
            d.contains_key(a) && after == moved(d, a, b)
        } else {
            after == d
        },
        OpView::RemoveFile(p) => if reply is Ok {
            d.contains_key(p) && after == d.remove(p)
        } else {
            after == d
        },
        OpView::RemoveDir(p) => if reply is Ok {
            &&& d.contains_key(p)
            &&& d[p] == Item::Dir
            &&& forall|q: Path| #[trigger] d.contains_key(q) && leads_to(p, q) ==> q == p
            &&& after == d.remove(p)
        } else {
            after == d
        },
        OpView::CreateFile(p) => if reply is Ok {
            !d.contains_key(p) && after == d.insert(p, Item::File(contents))
        } else {
            after == d
        },
    }
}

/// The operation that a task waits for.
pub open spec fn asked(fs: TagView, task: TaskView) -> OpView {
    let s = fs.state;
    match task {
        TaskView::Dir { tags } => OpView::CreateDirAll(fs.full(s.dir_for_tags(tags))),
        TaskView::Mkdir { tags } => OpView::CreateDirAll(fs.full(s.dir_for_tags(tags))),
        TaskView::CreateDir { tags, .. } => OpView::CreateDirAll(fs.full(s.dir_for_tags(tags))),
        TaskView::CreateFile { ffn, .. } => OpView::CreateFile(fs.full(ffn)),
        TaskView::Unlink { bn } => OpView::RemoveFile(fs.full(s.files[bn].ffn)),
        TaskView::RmdirLook { tags } => OpView::Exists(fs.full(first_path(s.tagdirs[tags]))),
        TaskView::RmdirDrop { tags } => OpView::RemoveDir(fs.full(first_path(s.tagdirs[tags]))),
        TaskView::RenameLook { old_bn, new_bn, .. } => OpView::Exists(
            fs.full(s.renamed_ffn(old_bn, new_bn)),
        ),
        TaskView::RenameMove { old_bn, new_bn, .. } => OpView::Rename(
            fs.full(s.files[old_bn].ffn),
            fs.full(s.renamed_ffn(old_bn, new_bn)),
        ),
        TaskView::RetagDir { bn, add, remove } => OpView::CreateDirAll(
            fs.full(s.dir_for_tags(s.changed_tags(bn, add, remove))),
        ),
        TaskView::RetagLook { ffn, .. } => OpView::Exists(fs.full(ffn)),
        TaskView::RetagMove { bn, ffn, .. } => OpView::Rename(
            fs.full(s.files[bn].ffn),
            fs.full(ffn),
        ),
        TaskView::TagLookOld { plan, at, .. } => OpView::Exists(fs.full(plan[at].0)),
        TaskView::TagLookNew { plan, at, .. } => OpView::Exists(fs.full(plan[at].1)),
        TaskView::TagMove { plan, at, .. } => OpView::Rename(
            fs.full(plan[at].0),
            fs.full(plan[at].1),
        ),
    }
}

/// Every request that starts asks for the operation of its task.
pub proof fn requests_start_asking(fs: TagView, request: Request, step: StepView)
    requires
        starts(fs, request, step),
    ensures
        step matches StepView::Ask(op, at, task) ==> at.root == fs.root && op == asked(at, task),
{
}

/// Every request that goes on asks for the operation of its task.
pub proof fn requests_go_on_asking(fs: TagView, task: TaskView, reply: Reply)
    requires
        task.fits(fs.state),
    ensures
        fs.resumed(task, reply) matches StepView::Ask(op, at, next) ==> at.root == fs.root && op
            == asked(at, next),
{
}

/// Every file is in its place on the disk, with its contents.
pub open spec fn in_place(
    d: Map<Path, Item>,
    root: Path,
    s: FsView,
    contents: Map<Name, int>,
) -> bool {
    forall|n: Name| #[trigger]
        s.files.contains_key(n) ==> contents.contains_key(n) && d.contains_key(
            root + s.files[n].ffn,
        ) && d[root + s.files[n].ffn] == Item::File(contents[n])
}

/// Every directory that is known is on the disk, and so is the root.
pub open spec fn dirs_in_place(
    d: Map<Path, Item>,
    root: Path,
    tagdirs: Map<Set<Name>, Set<Path>>,
) -> bool {
    &&& d.contains_key(root) && d[root] == Item::Dir
    &&& forall|k: Set<Name>, p: Path|
        #![trigger tagdirs[k].contains(p)]
        tagdirs.contains_key(k) && tagdirs[k].contains(p) ==> d.contains_key(root + p) && d[root
            + p] == Item::Dir
}

/// What the index says of the disk is so: every file is in its place, under one
/// name, with the tags of its place, in a directory that is known. Every directory
/// that is known is in its place too.
pub open spec fn on_disk(d: Map<Path, Item>, fs: TagView, contents: Map<Name, int>) -> bool {
    &&& filed(fs.state)
    &&& dirs_in_place(d, fs.root, fs.state.tagdirs)
    &&& one_name_each(fs.state.files)
    &&& dirs_known(fs.state.files, fs.state.tagdirs)
    &&& in_place(d, fs.root, fs.state, contents)
}

/// Right after a scan the index says what is on the disk.
pub proof fn scan_says_what_is_on_disk(
    d: Map<Path, Item>,
    root: Path,
    top: Seq<Found>,
    show_hidden: bool,
) -> (contents: Map<Name, int>)
    requires
        entries_ok(top),
        forall|p: Path| #[trigger]
            tree_files(Seq::empty(), top, show_hidden).contains(p) ==> d.contains_key(root + p)
                && d[root + p] is File,
        forall|p: Path| #[trigger]
            tree_dirs(Seq::empty(), top, show_hidden).contains(p) ==> d.contains_key(root + p)
                && d[root + p] == Item::Dir,
        d.contains_key(root),
        d[root] == Item::Dir,
    ensures
        on_disk(
            d,
            TagView::of_scan(root, scan_entries(empty_scan(), Seq::empty(), top, show_hidden)),
            contents,
        ),
{
    let scan = scan_entries(empty_scan(), Seq::empty(), top, show_hidden);
    scan_finds_every_file(top, show_hidden);
    let contents = Map::new(
        |n: Name| scan.files.contains_key(n),
        |n: Name| d[root + scan.files[n].ffn]->File_0,
    );
    assert forall|n: Name| #[trigger] scan.files.contains_key(n) implies d.contains_key(
        root + scan.files[n].ffn,
    ) && d[root + scan.files[n].ffn] == Item::File(contents[n]) by {
        assert(places(scan.files).contains(scan.files[n].ffn));
    }
    assert forall|k: Set<Name>, p: Path|
        #![trigger scan.tagdirs[k].contains(p)]
        scan.tagdirs.contains_key(k) && scan.tagdirs[k].contains(p) implies d.contains_key(root + p)
        && d[root + p] == Item::Dir by {
        assert(all_dirs(scan.tagdirs).contains(p));
        if p.len() == 0 {
            assert(root + p =~= root);
        }
    }
    contents
}

/// Every file is reached by its tags, in any order: where some of them were gone
/// through, the file is shown and each of the others leads on.
pub proof fn every_file_is_reached_by_its_tags(s: FsView, n: Name, tags: Set<Name>, tag: Name)
    requires
        consistent(s),
        dirs_known(s.files, s.tagdirs),
        s.files.contains_key(n),
        tags.subset_of(s.files[n].tags),
        s.files[n].tags.contains(tag),
        !tags.contains(tag),
    ensures
        s.matching_files(tags).contains(n),
        s.avail_tags(tags).contains(tag),
{
    matching_is_having_all_tags(s, tags);
    let k = s.files[n].tags;
    assert(s.tagdirs.contains_key(k) && tags.subset_of(k) && k.contains(tag));
}

/// A plain path of the source tree is right below the root.
pub proof fn lemma_full(fs: TagView, p: Path)
    requires
        plain_path(p),
    ensures
        fs.full(p) == fs.root + p,
{
    if p.len() > 0 {
        let c = p[0];
        assert(is_name(c));
        assert(c != root_comp()) by {
            if c == root_comp() {
                assert(c[0] == SLASH);
                assert(c.contains(c[0]));
            }
        }
    }
    assert(fs.full(p) =~= fs.root + p);
}

pub(crate) proof fn lemma_same_below(root: Path, p: Path, q: Path)
    requires
        root + p == root + q,
    ensures
        p == q,
{
    let n = root.len() as int;
    assert((root + p).skip(n) =~= p);
    assert((root + q).skip(n) =~= q);
}

proof fn lemma_nothing_below_a_file(d: Map<Path, Item>, p: Path, q: Path)
    requires
        disk_ok(d),
        d.contains_key(p),
        d[p] is File,
        p.len() > 0,
        leads_to(p, q),
        d.contains_key(q),
    ensures
        q == p,
{
    if p.len() < q.len() {
        assert(q.take(p.len() as int) == p);
        assert(d[q.take(p.len() as int)] == Item::Dir);
    } else {
        assert(q.take(p.len() as int) =~= q);
    }
}

proof fn lemma_leads_to_self(p: Path)
    ensures
        leads_to(p, p),
        p.skip(p.len() as int) == Seq::<Seq<u8>>::empty(),
        p + Seq::<Seq<u8>>::empty() == p,
{
    assert(p.take(p.len() as int) =~= p);
    assert(p.skip(p.len() as int) =~= Seq::<Seq<u8>>::empty());
    assert(p + Seq::<Seq<u8>>::empty() =~= p);
}

/// A file that is moved to a free place is there, and every other file is where
/// it was.
proof fn lemma_moved_file(d: Map<Path, Item>, a: Path, b: Path, q: Path)
    requires
        disk_ok(d),
        a.len() > 0,
        b.len() > 0,
        d.contains_key(a),
        d[a] is File,
        !d.contains_key(b),
    ensures
        moved(d, a, b).contains_key(b),
        moved(d, a, b)[b] == d[a],
        q != a && d.contains_key(q) ==> moved(d, a, b).contains_key(q) && moved(d, a, b)[q] == d[q],
{
    lemma_leads_to_self(b);
    assert(a + b.skip(b.len() as int) =~= a);
    if q != a && d.contains_key(q) {
        if leads_to(a, q) {
            lemma_nothing_below_a_file(d, a, q);
        }
        if leads_to(b, q) {
            if b.len() < q.len() {
                assert(q.take(b.len() as int) == b);
                assert(d.contains_key(q.take(b.len() as int)));
            } else {
                assert(q.take(b.len() as int) =~= q);
            }
        }
    }
}

/// A file that is moved leaves the directories in place.
proof fn lemma_dirs_stay(
    d: Map<Path, Item>,
    root: Path,
    tagdirs: Map<Set<Name>, Set<Path>>,
    a: Path,
    b: Path,
)
    requires
        disk_ok(d),
        dirs_in_place(d, root, tagdirs),
        a.len() > 0,
        b.len() > 0,
        d.contains_key(a),
        d[a] is File,
        !d.contains_key(b),
    ensures
        dirs_in_place(moved(d, a, b), root, tagdirs),
{
    lemma_moved_file(d, a, b, root);
    assert forall|k: Set<Name>, p: Path|
        #![trigger tagdirs[k].contains(p)]
        tagdirs.contains_key(k) && tagdirs[k].contains(p) implies moved(d, a, b).contains_key(
        root + p,
    ) && moved(d, a, b)[root + p] == Item::Dir by {
        lemma_moved_file(d, a, b, root + p);
    }
}

/// A file of the index, at the place where it is about to be put.
proof fn lemma_file_moved(
    d: Map<Path, Item>,
    root: Path,
    s: FsView,
    contents: Map<Name, int>,
    old: Name,
    new: Name,
    ffn: Path,
    r: FsView,
    after: Map<Path, Item>,
)
    requires
        disk_ok(d),
        in_place(d, root, s, contents),
        one_name_each(s.files),
        s.files.contains_key(old),
        s.files[old].ffn.len() > 0,
        ffn.len() > 0,
        old == new || !s.files.contains_key(new),
        !d.contains_key(root + ffn),
        after == moved(d, root + s.files[old].ffn, root + ffn),
        r.files.contains_key(new),
        r.files[new].ffn == ffn,
        forall|n: Name| #[trigger]
            r.files.contains_key(n) && n != new ==> s.files.contains_key(n) && n != old
                && r.files[n].ffn == s.files[n].ffn,
    ensures
        in_place(after, root, r, contents.remove(old).insert(new, contents[old])),
        one_name_each(r.files),
{
    let a = root + s.files[old].ffn;
    let b = root + ffn;
    let c = contents.remove(old).insert(new, contents[old]);
    assert(d.contains_key(a) && d[a] == Item::File(contents[old]));
    lemma_moved_file(d, a, b, a);
    assert forall|n: Name| #[trigger] r.files.contains_key(n) implies c.contains_key(n)
        && after.contains_key(root + r.files[n].ffn) && after[root + r.files[n].ffn] == Item::File(
        c[n],
    ) by {
        if n != new {
            let q = root + s.files[n].ffn;
            assert(s.files.contains_key(n));
            if q == a {
                lemma_same_below(root, s.files[n].ffn, s.files[old].ffn);
            }
            lemma_moved_file(d, a, b, q);
        }
    }
    assert forall|m: Name, n: Name|
        #![trigger r.files[m].ffn, r.files[n].ffn]
        r.files.contains_key(m) && r.files.contains_key(n) && r.files[m].ffn == r.files[n].ffn implies m
        == n by {
        if m != new && n != new {
            assert(s.files[m].ffn == s.files[n].ffn);
        } else if m != new {
            assert(s.files.contains_key(m));
            assert(d.contains_key(root + s.files[m].ffn));
        } else if n != new {
            assert(s.files.contains_key(n));
            assert(d.contains_key(root + s.files[n].ffn));
        }
    }
}

/// The contents of the files by name, after an operation of a task.
pub open spec fn contents_after(
    contents: Map<Name, int>,
    task: TaskView,
    reply: Reply,
    new_contents: int,
) -> Map<Name, int> {
    if reply is Err {
        contents
    } else {
        match task {
            TaskView::CreateFile { bn, .. } => contents.insert(bn, new_contents),
            TaskView::Unlink { bn } => contents.remove(bn),
            TaskView::RenameMove { old_bn, new_bn, .. } => contents.remove(old_bn).insert(
                new_bn,
                contents[old_bn],
            ),
            _ => contents,
        }
    }
}

/// What a task found out about the disk is so.
pub open spec fn task_knows(d: Map<Path, Item>, fs: TagView, task: TaskView) -> bool {
    let s = fs.state;
    match task {
        TaskView::CreateFile { tags, ffn, .. } => s.tagdirs.contains_key(tags)
            && s.tagdirs[tags].contains(dir_of(ffn)),
        TaskView::RenameMove { old_bn, new_bn, .. } => !d.contains_key(
            fs.full(s.renamed_ffn(old_bn, new_bn)),
        ),
        TaskView::RetagLook { bn, add, remove, ffn } => {
            let tags = s.changed_tags(bn, add, remove);
            s.tagdirs.contains_key(tags) && s.tagdirs[tags].contains(dir_of(ffn))
        },
        TaskView::RetagMove { bn, add, remove, ffn } => {
            let tags = s.changed_tags(bn, add, remove);
            s.tagdirs.contains_key(tags) && s.tagdirs[tags].contains(dir_of(ffn))
                && !d.contains_key(fs.full(ffn))
        },
        _ => true,
    }
}

/// The task renames the directories of a tag.
pub open spec fn renames_tag(task: TaskView) -> bool {
    task is TagLookOld || task is TagLookNew || task is TagMove
}

/// What a step says of the disk is so.
pub open spec fn step_on_disk(
    d: Map<Path, Item>,
    step: StepView,
    contents: Map<Name, int>,
) -> bool {
    match step {
        StepView::Ask(_, fs, task) => if renames_tag(task) {
            tag_on_disk(d, fs, task, contents)
        } else {
            on_disk(d, fs, contents) && task_knows(d, fs, task)
        },
        StepView::End(fs, _) => on_disk(d, fs, contents),
    }
}

/// The directory for these tags is on the disk, where it had to be made.
pub open spec fn dir_is_made(d: Map<Path, Item>, fs: TagView, tags: Set<Name>) -> bool {
    fs.state.dir_is_missing(tags) ==> {
        let p = fs.full(fs.state.dir_for_tags(tags));
        d.contains_key(p) && d[p] == Item::Dir
    }
}

proof fn lemma_dir_on_disk(
    d: Map<Path, Item>,
    fs: TagView,
    tags: Set<Name>,
    contents: Map<Name, int>,
)
    requires
        on_disk(d, fs, contents),
        plain_tags(tags),
        dir_is_made(d, fs, tags),
    ensures
        on_disk(d, fs.with(fs.state.with_dir_for_tags(tags)), contents),
{
    let s = fs.state;
    let r = s.with_dir_for_tags(tags);
    directory_for_tags_has_them(s, tags);
    assert(r.files == s.files);
    let dir = s.dir_for_tags(tags);
    lemma_full(fs, dir);
    if !s.knows_dir(tags) && tags == Set::<Name>::empty() {
        assert(dir.len() == 0) by {
            if dir.len() > 0 {
                assert(is_name(dir[0]));
                assert(name_tags(dir).contains(text_of(dir[0])));
            }
        }
        assert(fs.root + dir =~= fs.root);
    }
    assert forall|k: Set<Name>, p: Path|
        #![trigger r.tagdirs[k].contains(p)]
        r.tagdirs.contains_key(k) && r.tagdirs[k].contains(p) implies d.contains_key(fs.root + p)
        && d[fs.root + p] == Item::Dir by {
        if !(k == tags && p == dir && !s.knows_dir(tags)) {
            assert(s.tagdirs[k].contains(p));
        }
    }
    assert forall|n: Name| #[trigger] r.files.contains_key(n) implies r.tagdirs.contains_key(
        r.files[n].tags,
    ) && r.tagdirs[r.files[n].tags].contains(dir_of(r.files[n].ffn)) by {
        assert(s.files.contains_key(n));
    }
}

proof fn lemma_dirs_made_on_disk(
    d: Map<Path, Item>,
    after: Map<Path, Item>,
    fs: TagView,
    contents: Map<Name, int>,
)
    requires
        on_disk(d, fs, contents),
        dirs_made(d, after),
    ensures
        on_disk(after, fs, contents),
{
    assert forall|k: Set<Name>, p: Path|
        #![trigger fs.state.tagdirs[k].contains(p)]
        fs.state.tagdirs.contains_key(k) && fs.state.tagdirs[k].contains(
            p,
        ) implies after.contains_key(fs.root + p) && after[fs.root + p] == Item::Dir by {
        assert(d.contains_key(fs.root + p));
    }
    assert forall|n: Name| #[trigger] fs.state.files.contains_key(n) implies contents.contains_key(n)
        && after.contains_key(fs.root + fs.state.files[n].ffn) && after[fs.root
        + fs.state.files[n].ffn] == Item::File(contents[n]) by {
        assert(d.contains_key(fs.root + fs.state.files[n].ffn));
    }
}

proof fn lemma_inodes_on_disk(
    d: Map<Path, Item>,
    fs: TagView,
    r: FsView,
    contents: Map<Name, int>,
)
    requires
        on_disk(d, fs, contents),
        filed(r),
        r.files == fs.state.files,
        r.tagdirs == fs.state.tagdirs,
    ensures
        on_disk(d, fs.with(r), contents),
{
    assert forall|n: Name| #[trigger] r.files.contains_key(n) implies contents.contains_key(n)
        && d.contains_key(fs.root + r.files[n].ffn) && d[fs.root + r.files[n].ffn] == Item::File(
        contents[n],
    ) by {
        assert(fs.state.files.contains_key(n));
    }
}

proof fn lemma_retag_placed_on_disk(
    d: Map<Path, Item>,
    fs: TagView,
    bn: Name,
    add: Set<Name>,
    remove: Set<Name>,
    contents: Map<Name, int>,
)
    requires
        on_disk(d, fs, contents),
        fs.state.files.contains_key(bn),
        plain_tags(add),
        dir_is_made(d, fs, fs.state.changed_tags(bn, add, remove)),
    ensures
        step_on_disk(d, fs.retag_placed(bn, add, remove), contents),
{
    let s = fs.state;
    let tags = s.changed_tags(bn, add, remove);
    lemma_changed_tags_plain(s, bn, add, remove);
    directory_for_tags_has_them(s, tags);
    lemma_dir_on_disk(d, fs, tags, contents);
    let dir = s.dir_for_tags(tags);
    let ffn = placed(dir, bn);
    lemma_placed(dir, bn);
    let at = fs.with(s.with_dir_for_tags(tags));
    assert(at.state.files == s.files);
    assert(at.state.changed_tags(bn, add, remove) == tags);
    if ffn == s.files[bn].ffn {
        lemma_retagged_on_disk(d, at, bn, add, remove, ffn, contents);
    }
}

/// The file is in the place for its new tags already.
proof fn lemma_retagged_on_disk(
    d: Map<Path, Item>,
    fs: TagView,
    bn: Name,
    add: Set<Name>,
    remove: Set<Name>,
    ffn: Path,
    contents: Map<Name, int>,
)
    requires
        on_disk(d, fs, contents),
        fs.state.files.contains_key(bn),
        ffn == fs.state.files[bn].ffn,
        is_filed(
            FileView { ffn, tags: fs.state.changed_tags(bn, add, remove) },
        ),
        fs.state.tagdirs.contains_key(fs.state.changed_tags(bn, add, remove)),
        fs.state.tagdirs[fs.state.changed_tags(bn, add, remove)].contains(dir_of(ffn)),
    ensures
        on_disk(d, fs.with(fs.state.with_changed_tags(bn, add, remove, ffn)), contents),
{
    let s = fs.state;
    let r = s.with_changed_tags(bn, add, remove, ffn);
    lemma_with_file(s, r, bn);
    assert forall|m: Name, n: Name|
        #![trigger r.files[m].ffn, r.files[n].ffn]
        r.files.contains_key(m) && r.files.contains_key(n) && r.files[m].ffn == r.files[n].ffn implies m
        == n by {
        assert(s.files[m].ffn == s.files[n].ffn);
    }
    assert forall|n: Name| #[trigger] r.files.contains_key(n) implies r.tagdirs.contains_key(
        r.files[n].tags,
    ) && r.tagdirs[r.files[n].tags].contains(dir_of(r.files[n].ffn)) by {
        assert(s.files.contains_key(n));
    }
    assert forall|n: Name| #[trigger] r.files.contains_key(n) implies contents.contains_key(n)
        && d.contains_key(fs.root + r.files[n].ffn) && d[fs.root + r.files[n].ffn] == Item::File(
        contents[n],
    ) by {
        assert(s.files.contains_key(n));
    }
}

proof fn lemma_retag_on_disk(
    d: Map<Path, Item>,
    fs: TagView,
    bn: Name,
    add: Set<Name>,
    remove: Set<Name>,
    contents: Map<Name, int>,
)
    requires
        on_disk(d, fs, contents),
        plain_tags(add),
    ensures
        step_on_disk(d, fs.retag_step(bn, add, remove), contents),
        step_on_disk(d, fs.retag_if_any(bn, add, remove), contents),
{
    if fs.state.files.contains_key(bn) && !fs.state.dir_is_missing(
        fs.state.changed_tags(bn, add, remove),
    ) {
        lemma_retag_placed_on_disk(d, fs, bn, add, remove, contents);
    }
}

proof fn lemma_create_placed_on_disk(
    d: Map<Path, Item>,
    fs: TagView,
    bn: Name,
    tags: Set<Name>,
    contents: Map<Name, int>,
)
    requires
        on_disk(d, fs, contents),
        plain(bn),
        plain_tags(tags),
        dir_is_made(d, fs, tags),
    ensures
        step_on_disk(d, fs.create_placed(bn, tags), contents),
{
    directory_for_tags_has_them(fs.state, tags);
    lemma_dir_on_disk(d, fs, tags, contents);
    lemma_placed(fs.state.dir_for_tags(tags), bn);
}

proof fn lemma_mkdir_done_on_disk(
    d: Map<Path, Item>,
    fs: TagView,
    tags: Set<Name>,
    contents: Map<Name, int>,
)
    requires
        on_disk(d, fs, contents),
        plain_tags(tags),
        dir_is_made(d, fs, tags),
    ensures
        step_on_disk(d, fs.mkdir_done(tags), contents),
{
    lemma_dir_on_disk(d, fs, tags, contents);
    lemma_mkdir_filed(fs, tags);
    let s = fs.state.with_dir_for_tags(tags);
    let r = FsView { inodes: s.inodes.with_dir(tags), ..s };
    lemma_inodes_on_disk(d, fs.with(s), r, contents);
}

/// Without directories for a set of tags no file has these tags.
proof fn lemma_rmdir_on_disk(
    d: Map<Path, Item>,
    fs: TagView,
    tags: Set<Name>,
    contents: Map<Name, int>,
)
    requires
        on_disk(d, fs, contents),
    ensures
        step_on_disk(d, fs.rmdir_next(tags), contents),
{
    let s = fs.state;
    if !s.knows_dir(tags) {
        let r = s.without_tagdir(tags);
        assert forall|n: Name| #[trigger] s.files.contains_key(n) implies s.files[n].tags != tags by {
            if s.files[n].tags == tags {
                assert(s.tagdirs[tags].contains(dir_of(s.files[n].ffn)));
            }
        }
        lemma_rmdir_filed(s, tags);
        assert forall|n: Name| #[trigger] r.files.contains_key(n) implies r.tagdirs.contains_key(
            r.files[n].tags,
        ) && r.tagdirs[r.files[n].tags].contains(dir_of(r.files[n].ffn)) by {
            assert(s.files.contains_key(n));
        }
        assert forall|n: Name| #[trigger] r.files.contains_key(n) implies contents.contains_key(n)
            && d.contains_key(fs.root + r.files[n].ffn) && d[fs.root + r.files[n].ffn]
            == Item::File(contents[n]) by {
            assert(s.files.contains_key(n));
        }
        assert forall|k: Set<Name>, p: Path|
            #![trigger r.tagdirs[k].contains(p)]
            r.tagdirs.contains_key(k) && r.tagdirs[k].contains(p) implies d.contains_key(
            fs.root + p,
        ) && d[fs.root + p] == Item::Dir by {
            assert(s.tagdirs[k].contains(p));
        }
    }
}

/// The first directory of a set of tags is on the disk.
proof fn lemma_first_dir_on_disk(
    d: Map<Path, Item>,
    fs: TagView,
    tags: Set<Name>,
    contents: Map<Name, int>,
)
    requires
        on_disk(d, fs, contents),
        fs.state.knows_dir(tags),
    ensures
        fs.state.tagdirs[tags].contains(first_path(fs.state.tagdirs[tags])),
        fs.full(first_path(fs.state.tagdirs[tags])) == fs.root + first_path(
            fs.state.tagdirs[tags],
        ),
        d.contains_key(fs.full(first_path(fs.state.tagdirs[tags]))),
{
    let dirs = fs.state.tagdirs[tags];
    lemma_dirs_finite(fs.state.tagdirs, tags);
    lemma_first_path(dirs);
    assert(fs.state.tagdirs[tags].contains(first_path(dirs)));
    lemma_full(fs, first_path(dirs));
}

/// A directory that is removed holds no file of the index and no other directory
/// that it knows.
proof fn lemma_dir_gone_on_disk(
    d: Map<Path, Item>,
    fs: TagView,
    tags: Set<Name>,
    after: Map<Path, Item>,
    contents: Map<Name, int>,
)
    requires
        on_disk(d, fs, contents),
        fs.state.knows_dir(tags),
        tags != Set::<Name>::empty(),
        performs(
            d,
            OpView::RemoveDir(fs.full(first_path(fs.state.tagdirs[tags]))),
            after,
            Ok(true),
            0,
        ),
    ensures
        on_disk(after, fs.with(fs.state.without_first_dir(tags)), contents),
{
    let s = fs.state;
    let p = first_path(s.tagdirs[tags]);
    let r = s.without_first_dir(tags);
    lemma_first_dir_on_disk(d, fs, tags, contents);
    lemma_dir_gone_filed(s, tags);
    assert(p.len() > 0) by {
        if p.len() == 0 {
            assert(name_tags(p) =~= Set::<Name>::empty());
        }
    }
    assert forall|n: Name| #[trigger] r.files.contains_key(n) implies contents.contains_key(n)
        && after.contains_key(fs.root + r.files[n].ffn) && after[fs.root + r.files[n].ffn]
        == Item::File(contents[n]) by {
        assert(s.files.contains_key(n));
        assert(d[fs.root + s.files[n].ffn] is File);
    }
    assert forall|n: Name| #[trigger] r.files.contains_key(n) implies r.tagdirs.contains_key(
        r.files[n].tags,
    ) && r.tagdirs[r.files[n].tags].contains(dir_of(r.files[n].ffn)) by {
        assert(s.files.contains_key(n));
        let f = s.files[n];
        if dir_of(f.ffn) == p {
            lemma_plain_dir(f.ffn);
            let q = fs.root + f.ffn;
            assert(q.take((fs.root + p).len() as int) =~= fs.root + p);
            assert(d.contains_key(q) && leads_to(fs.root + p, q));
            assert(q != fs.root + p);
        }
    }
    assert(fs.root != fs.root + p);
    assert forall|k: Set<Name>, q: Path|
        #![trigger r.tagdirs[k].contains(q)]
        r.tagdirs.contains_key(k) && r.tagdirs[k].contains(q) implies after.contains_key(
        fs.root + q,
    ) && after[fs.root + q] == Item::Dir by {
        assert(s.tagdirs[k].contains(q));
        if fs.root + q == fs.root + p {
            lemma_same_below(fs.root, q, p);
            assert(k == tags);
        }
    }
}

/// What the index says of the disk is so when a request starts, if it was so
/// before.
pub proof fn requests_start_on_disk(
    d: Map<Path, Item>,
    fs: TagView,
    request: Request,
    step: StepView,
    contents: Map<Name, int>,
)
    requires
        disk_ok(d),
        on_disk(d, fs, contents),
        fs.state.inodes.next < u64::MAX,
        well_named(request),
        starts(fs, request, step),
    ensures
        step_on_disk(d, step, contents),
{
    match request {
        Request::Dir { tags } => {
            if !fs.state.dir_is_missing(tags) {
                lemma_dir_on_disk(d, fs, tags, contents);
            }
        },
        Request::Mkdir { parent, name } => {
            if let Some(NodeView::Dir(tags)) = fs.node(parent) {
                assert(plain_tags(tags));
                assert(plain_tags(tags.insert(name)));
                if !fs.state.dir_is_missing(tags.insert(name)) {
                    lemma_mkdir_done_on_disk(d, fs, tags.insert(name), contents);
                }
            }
        },
        Request::Create { parent, bn } => {
            lemma_tags_at_plain(fs, parent, bn);
            if let Some(tags) = fs.tags_at(parent, bn) {
                if !fs.state.dir_is_missing(tags) {
                    lemma_create_placed_on_disk(d, fs, bn, tags, contents);
                }
            }
        },
        Request::Unlink { .. } => {},
        Request::Rmdir { parent, name } => {
            if let Some(NodeView::Dir(tags)) = fs.node(parent) {
                lemma_rmdir_on_disk(d, fs, tags.insert(name), contents);
            }
        },
        Request::RenameFile { .. } => {},
        Request::Retag { bn, add, remove } => {
            lemma_retag_on_disk(d, fs, bn, add, remove, contents);
        },
        Request::RenameTag { old, new } => {
            lemma_tag_starts(d, fs, old, new, step, contents);
        },
        Request::Rename { parent, name, new_parent, new_name } => {
            match (
                fs.tags_before(parent, name, new_parent),
                fs.tags_after(parent, name, new_parent),
            ) {
                (Some(old_tags), Some(new_tags)) => {
                    if fs.is_tag(name) {
                        lemma_tag_starts(d, fs, name, new_name, step, contents);
                    } else {
                        lemma_moved_tags_plain(fs, parent, name, new_parent);
                        lemma_retag_on_disk(
                            d,
                            fs,
                            name,
                            new_tags.difference(old_tags),
                            old_tags.difference(new_tags),
                            contents,
                        );
                    }
                },
                _ => {},
            }
        },
    }
}

/// What the index says of the disk is so when a request goes on, if it was so
/// before, whatever came of the operation. The contents of the files follow their
/// names.
pub proof fn requests_stay_on_disk(
    d: Map<Path, Item>,
    fs: TagView,
    task: TaskView,
    after: Map<Path, Item>,
    reply: Reply,
    contents: Map<Name, int>,
    new_contents: int,
)
    requires
        disk_ok(d),
        disk_ok(after),
        task.fits(fs.state),
        prepared(fs.state, task),
        task_filed(fs.state, task),
        step_on_disk(d, StepView::Ask(asked(fs, task), fs, task), contents),
        performs(d, asked(fs, task), after, reply, new_contents),
    ensures
        step_on_disk(
            after,
            fs.resumed(task, reply),
            contents_after(contents, task, reply, new_contents),
        ),
{
    let s = fs.state;
    match task {
        TaskView::Dir { tags } => {
            lemma_dirs_made_on_disk(d, after, fs, contents);
            if reply is Ok {
                lemma_dir_on_disk(after, fs, tags, contents);
            }
        },
        TaskView::Mkdir { tags } => {
            lemma_dirs_made_on_disk(d, after, fs, contents);
            if reply is Ok {
                lemma_mkdir_done_on_disk(after, fs, tags, contents);
            }
        },
        TaskView::CreateDir { bn, tags } => {
            lemma_dirs_made_on_disk(d, after, fs, contents);
            if reply is Ok {
                lemma_create_placed_on_disk(after, fs, bn, tags, contents);
            }
        },
        TaskView::CreateFile { bn, tags, ffn } => {
            if reply is Ok {
                lemma_created_on_disk(d, fs, bn, tags, ffn, after, contents, new_contents);
            }
        },
        TaskView::Unlink { bn } => {
            if reply is Ok {
                lemma_unlinked_on_disk(d, fs, bn, after, contents);
            }
        },
        TaskView::RmdirLook { tags } => {
            lemma_first_dir_on_disk(d, fs, tags, contents);
        },
        TaskView::RmdirDrop { tags } => {
            if reply is Ok {
                lemma_dir_gone_on_disk(d, fs, tags, after, contents);
                let at = fs.with(s.without_first_dir(tags));
                lemma_rmdir_on_disk(after, at, tags, contents);
            }
        },
        TaskView::RenameLook { .. } => {},
        TaskView::RenameMove { old_bn, new_bn, add, remove } => {
            if reply is Ok {
                lemma_renamed_on_disk(d, fs, old_bn, new_bn, after, contents);
                let at = fs.with(s.with_renamed_file(old_bn, new_bn));
                let c = contents.remove(old_bn).insert(new_bn, contents[old_bn]);
                lemma_retag_on_disk(after, at, new_bn, add, remove, c);
            }
        },
        TaskView::RetagDir { bn, add, remove } => {
            lemma_dirs_made_on_disk(d, after, fs, contents);
            if reply is Ok {
                lemma_retag_placed_on_disk(after, fs, bn, add, remove, contents);
            }
        },
        TaskView::RetagLook { .. } => {},
        TaskView::RetagMove { bn, add, remove, ffn } => {
            if reply is Ok {
                lemma_retag_moved_on_disk(d, fs, bn, add, remove, ffn, after, contents);
            }
        },
        _ => {
            lemma_tag_goes_on(d, fs, task, after, reply, contents, new_contents);
        },
    }
}

pub(crate) proof fn lemma_moved_tags_plain(fs: TagView, parent: u64, bn: Name, new_parent: u64)
    requires
        filed(fs.state),
        fs.tags_before(parent, bn, new_parent) is Some,
        fs.tags_after(parent, bn, new_parent) is Some,
    ensures
        plain_tags(
            fs.tags_after(parent, bn, new_parent).unwrap().difference(
                fs.tags_before(parent, bn, new_parent).unwrap(),
            ),
        ),
{
    lemma_tags_at_plain(fs, parent, bn);
    lemma_tags_at_plain(fs, new_parent, bn);
    let old_tags = fs.tags_before(parent, bn, new_parent).unwrap();
    let new_tags = fs.tags_after(parent, bn, new_parent).unwrap();
    assert(plain_tags(new_tags)) by {
        lemma_set_subset_finite(fs.tags_of(bn), fs.tags_of(bn).difference(old_tags));
    }
    lemma_set_subset_finite(new_tags, new_tags.difference(old_tags));
}

proof fn lemma_created_on_disk(
    d: Map<Path, Item>,
    fs: TagView,
    bn: Name,
    tags: Set<Name>,
    ffn: Path,
    after: Map<Path, Item>,
    contents: Map<Name, int>,
    new_contents: int,
)
    requires
        on_disk(d, fs, contents),
        !fs.state.files.contains_key(bn),
        plain(bn),
        is_filed(FileView { ffn, tags }),
        fs.state.tagdirs.contains_key(tags),
        fs.state.tagdirs[tags].contains(dir_of(ffn)),
        !d.contains_key(fs.full(ffn)),
        after == d.insert(fs.full(ffn), Item::File(new_contents)),
    ensures
        on_disk(
            after,
            fs.with(fs.state.with_new_file(bn, tags, ffn)),
            contents.insert(bn, new_contents),
        ),
{
    let s = fs.state;
    let r = s.with_new_file(bn, tags, ffn);
    let c = contents.insert(bn, new_contents);
    lemma_full(fs, ffn);
    lemma_with_file(s, r, bn);
    assert forall|k: Set<Name>, p: Path|
        #![trigger r.tagdirs[k].contains(p)]
        r.tagdirs.contains_key(k) && r.tagdirs[k].contains(p) implies after.contains_key(
        fs.root + p,
    ) && after[fs.root + p] == Item::Dir by {
        assert(s.tagdirs[k].contains(p));
    }
    assert forall|n: Name| #[trigger] r.files.contains_key(n) implies c.contains_key(n)
        && after.contains_key(fs.root + r.files[n].ffn) && after[fs.root + r.files[n].ffn]
        == Item::File(c[n]) by {
        if n != bn {
            assert(s.files.contains_key(n));
        }
    }
    assert forall|m: Name, n: Name|
        #![trigger r.files[m].ffn, r.files[n].ffn]
        r.files.contains_key(m) && r.files.contains_key(n) && r.files[m].ffn == r.files[n].ffn implies m
        == n by {
        if m != bn && n != bn {
            assert(s.files[m].ffn == s.files[n].ffn);
        } else if m != bn {
            assert(s.files.contains_key(m));
        } else if n != bn {
            assert(s.files.contains_key(n));
        }
    }
    assert forall|n: Name| #[trigger] r.files.contains_key(n) implies r.tagdirs.contains_key(
        r.files[n].tags,
    ) && r.tagdirs[r.files[n].tags].contains(dir_of(r.files[n].ffn)) by {
        if n != bn {
            assert(s.files.contains_key(n));
        }
    }
}

proof fn lemma_unlinked_on_disk(
    d: Map<Path, Item>,
    fs: TagView,
    bn: Name,
    after: Map<Path, Item>,
    contents: Map<Name, int>,
)
    requires
        on_disk(d, fs, contents),
        fs.state.files.contains_key(bn),
        after == d.remove(fs.full(fs.state.files[bn].ffn)),
    ensures
        on_disk(after, fs.with(fs.state.without_file(bn)), contents.remove(bn)),
{
    let s = fs.state;
    let r = s.without_file(bn);
    lemma_full(fs, s.files[bn].ffn);
    lemma_with_file(s, r, bn);
    assert(d[fs.root + s.files[bn].ffn] is File);
    assert forall|k: Set<Name>, p: Path|
        #![trigger r.tagdirs[k].contains(p)]
        r.tagdirs.contains_key(k) && r.tagdirs[k].contains(p) implies after.contains_key(
        fs.root + p,
    ) && after[fs.root + p] == Item::Dir by {
        assert(s.tagdirs[k].contains(p));
    }
    assert forall|n: Name| #[trigger] r.files.contains_key(n) implies contents.remove(
        bn,
    ).contains_key(n) && after.contains_key(fs.root + r.files[n].ffn) && after[fs.root
        + r.files[n].ffn] == Item::File(contents.remove(bn)[n]) by {
        assert(s.files.contains_key(n));
        if fs.root + s.files[n].ffn == fs.root + s.files[bn].ffn {
            lemma_same_below(fs.root, s.files[n].ffn, s.files[bn].ffn);
        }
    }
    assert forall|m: Name, n: Name|
        #![trigger r.files[m].ffn, r.files[n].ffn]
        r.files.contains_key(m) && r.files.contains_key(n) && r.files[m].ffn == r.files[n].ffn implies m
        == n by {
        assert(s.files[m].ffn == s.files[n].ffn);
    }
    assert forall|n: Name| #[trigger] r.files.contains_key(n) implies r.tagdirs.contains_key(
        r.files[n].tags,
    ) && r.tagdirs[r.files[n].tags].contains(dir_of(r.files[n].ffn)) by {
        assert(s.files.contains_key(n));
    }
}

proof fn lemma_renamed_on_disk(
    d: Map<Path, Item>,
    fs: TagView,
    old: Name,
    new: Name,
    after: Map<Path, Item>,
    contents: Map<Name, int>,
)
    requires
        disk_ok(d),
        on_disk(d, fs, contents),
        fs.state.files.contains_key(old),
        !fs.state.files.contains_key(new),
        plain(new),
        !d.contains_key(fs.full(fs.state.renamed_ffn(old, new))),
        after == moved(
            d,
            fs.full(fs.state.files[old].ffn),
            fs.full(fs.state.renamed_ffn(old, new)),
        ),
    ensures
        on_disk(
            after,
            fs.with(fs.state.with_renamed_file(old, new)),
            contents.remove(old).insert(new, contents[old]),
        ),
{
    let s = fs.state;
    let f = s.files[old];
    let r = s.with_renamed_file(old, new);
    let ffn = s.renamed_ffn(old, new);
    lemma_plain_dir(f.ffn);
    lemma_placed(dir_of(f.ffn), new);
    lemma_full(fs, f.ffn);
    lemma_full(fs, ffn);
    lemma_file_moved(d, fs.root, s, contents, old, new, ffn, r, after);
    assert(d[fs.root + f.ffn] is File);
    lemma_dirs_stay(d, fs.root, s.tagdirs, fs.root + f.ffn, fs.root + ffn);
    lemma_rename_file_filed(s, old, new);
    assert forall|n: Name| #[trigger] r.files.contains_key(n) implies r.tagdirs.contains_key(
        r.files[n].tags,
    ) && r.tagdirs[r.files[n].tags].contains(dir_of(r.files[n].ffn)) by {
        if n != new {
            assert(s.files.contains_key(n));
        }
    }
}

proof fn lemma_retag_moved_on_disk(
    d: Map<Path, Item>,
    fs: TagView,
    bn: Name,
    add: Set<Name>,
    remove: Set<Name>,
    ffn: Path,
    after: Map<Path, Item>,
    contents: Map<Name, int>,
)
    requires
        disk_ok(d),
        on_disk(d, fs, contents),
        fs.state.files.contains_key(bn),
        is_filed(FileView { ffn, tags: fs.state.changed_tags(bn, add, remove) }),
        fs.state.tagdirs.contains_key(fs.state.changed_tags(bn, add, remove)),
        fs.state.tagdirs[fs.state.changed_tags(bn, add, remove)].contains(dir_of(ffn)),
        !d.contains_key(fs.full(ffn)),
        after == moved(d, fs.full(fs.state.files[bn].ffn), fs.full(ffn)),
    ensures
        on_disk(after, fs.with(fs.state.with_changed_tags(bn, add, remove, ffn)), contents),
{
    let s = fs.state;
    let f = s.files[bn];
    let r = s.with_changed_tags(bn, add, remove, ffn);
    lemma_full(fs, f.ffn);
    lemma_full(fs, ffn);
    lemma_file_moved(d, fs.root, s, contents, bn, bn, ffn, r, after);
    assert(d[fs.root + f.ffn] is File);
    lemma_dirs_stay(d, fs.root, s.tagdirs, fs.root + f.ffn, fs.root + ffn);
    assert(contents.contains_key(bn));
    assert(contents.remove(bn).insert(bn, contents[bn]) =~= contents);
    lemma_retag_done_filed(s, bn, add, remove, ffn);
    assert forall|n: Name| #[trigger] r.files.contains_key(n) implies r.tagdirs.contains_key(
        r.files[n].tags,
    ) && r.tagdirs[r.files[n].tags].contains(dir_of(r.files[n].ffn)) by {
        if n != bn {
            assert(s.files.contains_key(n));
        }
    }
}

} // verus!
