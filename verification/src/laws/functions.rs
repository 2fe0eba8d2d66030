//! What the functions of the library give, by what they are given.
use vstd::prelude::*;

use crate::attr::{dir_attr, file_attr, file_kind, Attr, AttrChange, FileKind, SetAttr, Stat, Time};
use crate::inode::{NodeView, SpecialKind, ALL_INODE, ROOT_INODE, UNTAGGED_INODE};
use crate::laws::attrs::{
    changes_are_those_asked_for, files_have_the_attributes_told, is_asked_for, is_lower_half,
    is_time, turn,
};
use crate::laws::basics::names_on_the_way_are_tags;
use crate::laws::consistent::{consistent, matching_is_having_all_tags};
use crate::laws::filed::all_dirs;
use crate::laws::found::{reached, scan_finds_what_ways_lead_to};
use crate::laws::naming::{
    extensions_begin_with_the_last_dot, free_names_are_the_first_ones, goes_by,
    scan_names_files_after_themselves,
};
use crate::laws::reading::entries_have_their_attributes;
use crate::laws::scanned::{entries_ok, places};
use crate::listing::{
    entry_views, page_of, plus_views, readdirplus, with_attrs, Entry, PlusEntry,
};
use crate::names::{Name, NameSet, Path};
use crate::path::{is_name, FsPath};
use crate::scanner::{
    components_to_tags, dir_path_to_tags, file_path_to_tags, find_free_bn, is_entered, is_shown,
    scan_tree, split_ext, Found, Kind, ScanResult,
};
use crate::state::FsState;
use crate::tagfs::TagFs;
use crate::text::text_of;

verus! {

/// An entry is hidden exactly if hidden names are not shown and its text begins with
/// a dot.
pub proof fn dots_hide_entries(name: &[u8], show_hidden: bool, r: bool)
    requires
        call_ensures(is_shown, (name, show_hidden), r),
    ensures
        !r <==> !show_hidden && text_of(name@).len() > 0 && text_of(name@)[0] == '.',
{
}

/// A scan goes into directories, and not through links to them.
pub proof fn only_directories_are_entered(target: &Option<Kind>, real_dir: bool, r: bool)
    requires
        call_ensures(is_entered, (target, real_dir), r),
    ensures
        r <==> *target == Some(Kind::Dir) && real_dir,
{
}

/// A scan finds the files and directories that some way in sight leads to, and names
/// each file after itself.
pub proof fn trees_are_scanned(top: &Vec<Found>, show_hidden: bool, r: ScanResult)
    requires
        entries_ok(top@),
        call_ensures(scan_tree, (top, show_hidden), r),
    ensures
        forall|p: Path| #[trigger]
            places(r@.files).contains(p) <==> reached(top@, p, Kind::File, show_hidden),
        forall|p: Path|
            p.len() > 0 ==> (#[trigger] all_dirs(r@.tagdirs).contains(p) <==> reached(
                top@,
                p,
                Kind::Dir,
                show_hidden,
            )),
        forall|n: Name| #[trigger]
            r@.files.contains_key(n) ==> goes_by(
                r@.files.dom(),
                text_of(r@.files[n].ffn.last()),
                n,
            ),
{
    scan_finds_what_ways_lead_to(top@, show_hidden);
    scan_names_files_after_themselves(top@, show_hidden);
}

/// A name is split before its last dot, unless that is the first character.
pub proof fn names_are_split_before_the_last_dot(name: &str, r: (&str, &str))
    requires
        call_ensures(split_ext, (name,), r),
    ensures
        r.0@ + r.1@ == name@,
        r.1@.len() > 0 ==> r.0@.len() > 0 && r.1@[0] == '.',
        forall|j: int| 1 <= j < r.1@.len() ==> #[trigger] r.1@[j] != '.',
        r.1@.len() == 0 ==> forall|j: int| 1 <= j < name@.len() ==> #[trigger] name@[j] != '.',
{
    extensions_begin_with_the_last_dot(name@);
}

/// A name that is free stays, and one that is taken gets the first number that is
/// free.
pub proof fn free_names_are_found(bn: &str, existing: &NameSet, r: String)
    requires
        existing@.finite(),
        call_ensures(find_free_bn, (bn, existing), r),
    ensures
        !existing@.contains(r@),
        !existing@.contains(bn@) ==> r@ == bn@,
        goes_by(existing@, bn@, r@),
{
    free_names_are_the_first_ones(bn@, existing@);
}

/// The tags of a directory are the names on its path, and those of a file the tags
/// of its directory.
pub proof fn tags_come_from_paths(p: &FsPath, all: NameSet, dir: NameSet, file: NameSet, q: Path, c: Seq<u8>)
    requires
        call_ensures(components_to_tags, (p,), all),
        call_ensures(dir_path_to_tags, (p,), dir),
        call_ensures(file_path_to_tags, (p,), file),
        p@ == q.push(c),
        is_name(c),
    ensures
        dir@ == all@,
        dir@ == file@.insert(text_of(c)),
        forall|t: Name| #[trigger]
            file@.contains(t) <==> exists|i: int|
                0 <= i < q.len() && is_name(#[trigger] q[i]) && text_of(q[i]) == t,
{
    names_on_the_way_are_tags(q, c);
}

/// The filesystem knows what the scan found, with inodes for the root and the
/// special directories alone.
pub proof fn filesystems_start_with_their_scan(root: FsPath, scan: ScanResult, fs: TagFs)
    requires
        call_ensures(TagFs::new, (root, scan), fs),
    ensures
        fs@.root == root@,
        fs@.state.files == scan@.files,
        fs@.state.tagdirs == scan@.tagdirs,
        fs@.state.by_tags == scan@.by_tags,
        fs@.node(ROOT_INODE) == Some(NodeView::Dir(Set::empty())),
        fs@.node(ALL_INODE) == Some(NodeView::SpecialDir(SpecialKind::All)),
        fs@.node(UNTAGGED_INODE) == Some(NodeView::SpecialDir(SpecialKind::Untagged)),
        forall|i: u64| #[trigger]
            fs@.node(i) is Some ==> i == ROOT_INODE || i == ALL_INODE || i == UNTAGGED_INODE,
{
}

/// The tags that lead on, the files without tags, and the files with all of some
/// tags.
pub proof fn tags_lead_on_to_files(
    s: FsState,
    tags: &NameSet,
    avail: NameSet,
    untagged: NameSet,
    matching: NameSet,
)
    requires
        consistent(s@),
        call_ensures(FsState::get_avail_tags, (&s, tags), avail),
        call_ensures(FsState::get_untagged_files, (&s,), untagged),
        call_ensures(FsState::get_matching_files, (&s, tags), matching),
    ensures
        forall|t: Name| #[trigger]
            avail@.contains(t) <==> !tags@.contains(t) && exists|k: Set<Name>| #[trigger]
                s@.tagdirs.contains_key(k) && k.contains(t) && tags@.subset_of(k),
        forall|n: Name| #[trigger]
            untagged@.contains(n) <==> s@.files.contains_key(n) && forall|t: Name|
                !#[trigger] s@.files[n].tags.contains(t),
        forall|n: Name| #[trigger]
            matching@.contains(n) <==> s@.files.contains_key(n) && forall|t: Name| #[trigger]
                tags@.contains(t) ==> s@.files[n].tags.contains(t),
{
    matching_is_having_all_tags(s@, tags@);
    assert forall|n: Name| #[trigger]
        untagged@.contains(n) <==> s@.files.contains_key(n) && forall|t: Name|
            !#[trigger] s@.files[n].tags.contains(t) by {
        let own = s@.files[n].tags;
        if forall|t: Name| !#[trigger] own.contains(t) {
            assert(own =~= Set::<Name>::empty());
        }
    }
}

/// A file has the attributes that the system told of it.
pub proof fn files_get_their_attributes(ino: u64, s: &Stat, a: Attr)
    requires
        call_ensures(file_attr, (ino, s), a),
    ensures
        a.ino == ino,
        a.size == s.size,
        a.blocks == s.blocks,
        a.uid == s.uid,
        a.gid == s.gid,
        a.kind == (if s.symlink {
            FileKind::Symlink
        } else {
            FileKind::RegularFile
        }),
        is_time(a.atime, s.atime),
        is_time(a.mtime, s.mtime),
        a.ctime.sec == s.ctime_sec,
        is_lower_half(a.ctime.nsec, s.ctime_nsec as int),
        is_lower_half(a.nlink, s.nlink as int),
        is_lower_half(a.rdev, s.rdev as int),
        is_lower_half(a.blksize, s.blksize as int),
        a.perm as u32 == s.mode & 0o7777,
{
    files_have_the_attributes_told(a, ino, *s);
}

/// A directory is one of the user, with the time of now.
pub proof fn directories_get_their_attributes(ino: u64, uid: u32, gid: u32, now: Time, a: Attr)
    requires
        call_ensures(dir_attr, (ino, uid, gid, now), a),
    ensures
        a.ino == ino,
        a.kind == FileKind::Directory,
        a.perm == 0o755,
        a.nlink == 2,
        a.uid == uid && a.gid == gid,
        a.atime == now && a.mtime == now && a.ctime == now,
        a.size == 0 && a.blocks == 0 && a.rdev == 0 && a.blksize == 4096,
{
}

/// A file is a link where the system says so.
pub proof fn files_get_their_kind(symlink: Option<bool>, r: FileKind)
    requires
        call_ensures(file_kind, (symlink,), r),
    ensures
        r == (if symlink == Some(true) {
            FileKind::Symlink
        } else {
            FileKind::RegularFile
        }),
{
}

/// The changes of attributes are those that are asked for, in their order.
pub proof fn attributes_are_changed_in_order(a: SetAttr, r: Vec<AttrChange>)
    requires
        call_ensures(SetAttr::changes, (&a,), r),
    ensures
        forall|c: AttrChange| #[trigger] r@.contains(c) <==> is_asked_for(a, c),
        forall|i: int, j: int|
            0 <= i < j < r@.len() ==> turn(#[trigger] r@[i]) < turn(#[trigger] r@[j]),
{
    changes_are_those_asked_for(a);
}

/// Where all attributes are known, the entries from some place on come with their
/// own, each with the number of the one that follows.
pub proof fn entries_come_with_their_attributes(
    entries: &Vec<Entry>,
    attrs: &Vec<Option<Attr>>,
    offset: u64,
    r: Vec<PlusEntry>,
)
    requires
        entries@.len() == attrs@.len(),
        forall|i: int| 0 <= i < attrs@.len() ==> (#[trigger] attrs@[i]) is Some,
        call_ensures(readdirplus, (entries, attrs, offset), r),
    ensures
        offset <= entries@.len() ==> r@.len() == entries@.len() - offset,
        offset > entries@.len() ==> r@.len() == 0,
        forall|i: int|
            0 <= i < r@.len() ==> {
                &&& (#[trigger] r@[i]).inode == entries@[offset + i].inode
                &&& r@[i].name@ == entries@[offset + i].name@
                &&& r@[i].attr == attrs@[offset + i].unwrap()
                &&& r@[i].offset == offset + i + 1
            },
{
    let es = entry_views(entries@);
    let all = with_attrs(es, attrs@);
    let page = page_of(all, offset as int);
    entries_have_their_attributes(es, attrs@);
    assert(plus_views(r@) == page);
    assert(plus_views(r@).len() == r@.len());
    assert forall|i: int| 0 <= i < r@.len() implies {
        &&& (#[trigger] r@[i]).inode == entries@[offset + i].inode
        &&& r@[i].name@ == entries@[offset + i].name@
        &&& r@[i].attr == attrs@[offset + i].unwrap()
        &&& r@[i].offset == offset + i + 1
    } by {
        assert(plus_views(r@)[i] == page[i]);
        assert(page[i] == (all[offset + i], offset + i + 1));
        assert(es[offset + i] == entries@[offset + i]@);
    }
}

} // verus!
