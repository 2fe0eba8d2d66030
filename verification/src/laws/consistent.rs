//! The index by tags says the same as the tags of the files.
use vstd::prelude::*;

use crate::inode::{InodeView, NodeView};
use crate::laws::requests::{prepared, starts, Request};
use crate::names::{Name, Path};
use crate::ops::{Reply, StepView, TaskView};
use crate::scanner::{
    dir_of, empty_scan, file_tags, free_bn, free_name_is_free, goes_on, name_tags, scan_entries,
    scan_entry, shown, touch_all, with_scanned_dir, with_scanned_file, Found, Kind, ScanView,
};
use crate::path::{parse_path, path_join};
use crate::sorted_map::added;
use crate::state::{has_tag, renamed_entry, renamed_tags, FsView};
use crate::tagfs::TagView;
use crate::text::text_of;

verus! {

/// A file is listed under a tag exactly if it has it, and every tag of a file or
/// of a directory is known.
pub open spec fn consistent(s: FsView) -> bool {
    &&& forall|t: Name, n: Name|
        #![trigger s.by_tags[t].contains(n)]
        s.by_tags.contains_key(t) ==> (s.by_tags[t].contains(n) <==> s.files.contains_key(n)
            && s.files[n].tags.contains(t))
    &&& forall|n: Name, t: Name|
        #![trigger s.files[n].tags.contains(t)]
        s.files.contains_key(n) && s.files[n].tags.contains(t) ==> s.by_tags.contains_key(t)
    &&& forall|k: Set<Name>, t: Name|
        #![trigger s.tagdirs.contains_key(k), k.contains(t)]
        s.tagdirs.contains_key(k) && k.contains(t) ==> s.by_tags.contains_key(t)
}

/// The files of a directory are those that have all of its tags.
pub proof fn matching_is_having_all_tags(s: FsView, tags: Set<Name>)
    requires
        consistent(s),
    ensures
        s.matching_files(tags) == Set::new(
            |n: Name| s.files.contains_key(n) && tags.subset_of(s.files[n].tags),
        ),
{
    let all = Set::new(|n: Name| s.files.contains_key(n) && tags.subset_of(s.files[n].tags));
    if tags != Set::<Name>::empty() {
        let some = choose|t: Name| tags.contains(t);
        assert(tags.contains(some)) by {
            if forall|t: Name| !tags.contains(t) {
                assert(tags =~= Set::<Name>::empty());
            }
        }
        assert forall|n: Name| #[trigger] s.matching_files(tags).contains(n) implies all.contains(n) by {
            assert(s.by_tags[some].contains(n));
            assert forall|t: Name| #[trigger] tags.contains(t) implies s.files[n].tags.contains(t) by {
                assert(s.by_tags[t].contains(n));
            }
        }
        assert forall|n: Name| #[trigger] all.contains(n) implies s.matching_files(tags).contains(n) by {
            assert forall|t: Name| #[trigger] tags.contains(t) implies s.by_tags.contains_key(t)
                && s.by_tags[t].contains(n) by {
                assert(s.files[n].tags.contains(t));
            }
        }
    }
    assert(s.matching_files(tags) =~= all);
}

/// Going on to a further tag keeps the files that have it too.
pub proof fn drilling_intersects(s: FsView, tags: Set<Name>, tag: Name)
    requires
        consistent(s),
        s.by_tags.contains_key(tag),
    ensures
        s.matching_files(tags.insert(tag)) == s.matching_files(tags).intersect(s.by_tags[tag]),
{
    matching_is_having_all_tags(s, tags);
    matching_is_having_all_tags(s, tags.insert(tag));
    assert forall|n: Name|
        s.matching_files(tags.insert(tag)).contains(n) == s.matching_files(tags).intersect(
            s.by_tags[tag],
        ).contains(n) by {
        assert(s.by_tags[tag].contains(n) ==> s.files[n].tags.contains(tag));
        if s.matching_files(tags.insert(tag)).contains(n) {
            assert(tags.insert(tag).contains(tag));
            assert(s.by_tags[tag].contains(n));
            assert forall|t: Name| #[trigger] tags.contains(t) implies s.files[n].tags.contains(t) by {
                assert(tags.insert(tag).contains(t));
            }
        }
    }
    assert(s.matching_files(tags.insert(tag)) =~= s.matching_files(tags).intersect(s.by_tags[tag]));
}

/// The order in which tags are gone through does not matter.
pub proof fn order_of_tags_is_irrelevant(s: FsView, tags: Set<Name>, a: Name, b: Name)
    ensures
        tags.insert(a).insert(b) == tags.insert(b).insert(a),
        s.matching_files(tags.insert(a).insert(b)) == s.matching_files(tags.insert(b).insert(a)),
        s.avail_tags(tags.insert(a).insert(b)) == s.avail_tags(tags.insert(b).insert(a)),
        s.inodes.with_dir(tags.insert(a).insert(b)) == s.inodes.with_dir(tags.insert(b).insert(a)),
{
    assert(tags.insert(a).insert(b) =~= tags.insert(b).insert(a));
}

/// `_all` shows every file. `_untagged` shows some of them, and none that a tag
/// leads to.
pub proof fn untagged_files_have_no_tags(s: FsView)
    requires
        consistent(s),
    ensures
        s.matching_files(Set::empty()) == s.files.dom(),
        s.untagged_files().subset_of(s.matching_files(Set::empty())),
        forall|tags: Set<Name>|
            tags != Set::<Name>::empty() ==> #[trigger] s.matching_files(tags).disjoint(
                s.untagged_files(),
            ),
{
    assert forall|tags: Set<Name>| tags != Set::<Name>::empty() implies #[trigger] s.matching_files(
        tags,
    ).disjoint(s.untagged_files()) by {
        matching_is_having_all_tags(s, tags);
        assert forall|n: Name| s.matching_files(tags).contains(n) implies !s.untagged_files().contains(n) by {
            if forall|t: Name| !tags.contains(t) {
                assert(tags =~= Set::<Name>::empty());
            }
            let t = choose|t: Name| tags.contains(t);
            assert(s.files[n].tags.contains(t));
        }
    }
}

/// The tags that lead on are known, and none of them was gone through already.
pub proof fn available_tags_are_new(s: FsView, tags: Set<Name>)
    requires
        consistent(s),
    ensures
        s.avail_tags(tags).disjoint(tags),
        forall|t: Name| #[trigger] s.avail_tags(tags).contains(t) ==> s.by_tags.contains_key(t),
{
}

proof fn lemma_scan_entry(acc: ScanView, dir: Path, e: Found, show_hidden: bool)
    requires
        consistent(FsView::of_scan(acc)),
        acc.files.dom().finite(),
    ensures
        consistent(FsView::of_scan(scan_entry(acc, dir, e, show_hidden))),
        scan_entry(acc, dir, e, show_hidden).files.dom().finite(),
    decreases e,
{
    let p = path_join(dir, parse_path(e.name@));
    if shown(e.name@, show_hidden) {
        if e.target == Some(Kind::Dir) {
            lemma_touched(FsView::of_scan(acc), name_tags(p), p);
            if goes_on(e) {
                lemma_scan_entries(with_scanned_dir(acc, p), p, e.inside@, show_hidden);
            }
        } else if e.target == Some(Kind::File) {
            lemma_scanned_file(acc, p, text_of(e.name@));
        }
    }
}

proof fn lemma_scan_entries(acc: ScanView, dir: Path, inside: Seq<Found>, show_hidden: bool)
    requires
        consistent(FsView::of_scan(acc)),
        acc.files.dom().finite(),
    ensures
        consistent(FsView::of_scan(scan_entries(acc, dir, inside, show_hidden))),
        scan_entries(acc, dir, inside, show_hidden).files.dom().finite(),
    decreases inside,
{
    if inside.len() > 0 {
        lemma_scan_entries(acc, dir, inside.drop_last(), show_hidden);
        lemma_scan_entry(
            scan_entries(acc, dir, inside.drop_last(), show_hidden),
            dir,
            inside.last(),
            show_hidden,
        );
    }
}

proof fn lemma_touched(s: FsView, tags: Set<Name>, dir: Path)
    requires
        consistent(s),
    ensures
        consistent(
            FsView {
                tagdirs: added(s.tagdirs, tags, dir),
                by_tags: touch_all(s.by_tags, tags),
                ..s
            },
        ),
{
    let r = FsView {
        tagdirs: added(s.tagdirs, tags, dir),
        by_tags: touch_all(s.by_tags, tags),
        ..s
    };
    assert forall|t: Name, n: Name|
        #![trigger r.by_tags[t].contains(n)]
        r.by_tags.contains_key(t) implies (r.by_tags[t].contains(n) <==> r.files.contains_key(n)
        && r.files[n].tags.contains(t)) by {
        if s.by_tags.contains_key(t) {
            assert(s.by_tags[t].contains(n) == r.by_tags[t].contains(n));
        } else {
            assert(s.files.contains_key(n) ==> !s.files[n].tags.contains(t));
        }
    }
    assert forall|n: Name, t: Name|
        #![trigger r.files[n].tags.contains(t)]
        r.files.contains_key(n) && r.files[n].tags.contains(t) implies r.by_tags.contains_key(t) by {
        assert(s.files[n].tags.contains(t));
    }
    assert forall|k: Set<Name>, t: Name|
        #![trigger r.tagdirs.contains_key(k), k.contains(t)]
        r.tagdirs.contains_key(k) && k.contains(t) implies r.by_tags.contains_key(t) by {
        if k != tags {
            assert(s.tagdirs.contains_key(k));
        }
    }
}

proof fn lemma_scanned_file(acc: ScanView, p: Path, name: Name)
    requires
        consistent(FsView::of_scan(acc)),
        acc.files.dom().finite(),
    ensures
        consistent(FsView::of_scan(with_scanned_file(acc, p, name))),
{
    let bn = free_bn(name, acc.files.dom());
    let tags = file_tags(p);
    free_name_is_free(name, acc.files.dom());
    let s = FsView::of_scan(acc);
    let mid = FsView {
        tagdirs: added(s.tagdirs, tags, dir_of(p)),
        by_tags: touch_all(s.by_tags, tags),
        ..s
    };
    lemma_touched(s, tags, dir_of(p));
    lemma_new_file(mid, bn, tags, p);
    let r = FsView::of_scan(with_scanned_file(acc, p, name));
    let f = FsView { inodes: r.inodes, ..mid.with_new_file(bn, tags, p) };
    assert(consistent(f)) by {
        lemma_inodes_do_not_matter(mid.with_new_file(bn, tags, p), r.inodes);
    }
    assert(f.by_tags =~= r.by_tags);
    assert(f =~= r);
}

proof fn lemma_inodes_do_not_matter(s: FsView, inodes: InodeView)
    requires
        consistent(s),
    ensures
        consistent(FsView { inodes, ..s }),
{
    let r = FsView { inodes, ..s };
    assert(r.by_tags == s.by_tags && r.files == s.files && r.tagdirs == s.tagdirs);
    assert forall|t: Name, n: Name|
        #![trigger r.by_tags[t].contains(n)]
        r.by_tags.contains_key(t) implies (r.by_tags[t].contains(n) <==> r.files.contains_key(n)
        && r.files[n].tags.contains(t)) by {
        assert(s.by_tags[t].contains(n) == r.by_tags[t].contains(n));
    }
    assert forall|n: Name, t: Name|
        #![trigger r.files[n].tags.contains(t)]
        r.files.contains_key(n) && r.files[n].tags.contains(t) implies r.by_tags.contains_key(t) by {
        assert(s.files[n].tags.contains(t));
    }
    assert forall|k: Set<Name>, t: Name|
        #![trigger r.tagdirs.contains_key(k), k.contains(t)]
        r.tagdirs.contains_key(k) && k.contains(t) implies r.by_tags.contains_key(t) by {
        assert(s.tagdirs.contains_key(k));
    }
}

/// A scan gives a consistent index, whatever the tree.
pub proof fn scan_is_consistent(top: Seq<Found>, show_hidden: bool)
    ensures
        consistent(FsView::of_scan(scan_entries(empty_scan(), Seq::empty(), top, show_hidden))),
{
    lemma_scan_entries(empty_scan(), Seq::empty(), top, show_hidden);
}

/// A new file leaves the index consistent.
pub proof fn lemma_new_file(s: FsView, bn: Name, tags: Set<Name>, ffn: Path)
    requires
        consistent(s),
        !s.files.contains_key(bn),
    ensures
        consistent(s.with_new_file(bn, tags, ffn)),
{
    let r = s.with_new_file(bn, tags, ffn);
    assert forall|t: Name, n: Name|
        #![trigger r.by_tags[t].contains(n)]
        r.by_tags.contains_key(t) implies (r.by_tags[t].contains(n) <==> r.files.contains_key(n)
        && r.files[n].tags.contains(t)) by {
        if s.by_tags.contains_key(t) {
            let was = s.by_tags[t].contains(n);
            assert(was == (s.files.contains_key(n) && s.files[n].tags.contains(t)));
        } else {
            assert(s.files.contains_key(n) ==> !s.files[n].tags.contains(t));
        }
    }
    assert forall|n: Name, t: Name|
        #![trigger r.files[n].tags.contains(t)]
        r.files.contains_key(n) && r.files[n].tags.contains(t) implies r.by_tags.contains_key(t) by {
        if n != bn {
            assert(s.files[n].tags.contains(t));
        }
    }
    assert forall|k: Set<Name>, t: Name|
        #![trigger r.tagdirs.contains_key(k), k.contains(t)]
        r.tagdirs.contains_key(k) && k.contains(t) implies r.by_tags.contains_key(t) by {
        assert(s.tagdirs.contains_key(k));
    }
}

/// A renamed file leaves the index consistent.
pub proof fn lemma_renamed_file(s: FsView, old: Name, new: Name)
    requires
        consistent(s),
        s.files.contains_key(old),
        !s.files.contains_key(new),
    ensures
        consistent(s.with_renamed_file(old, new)),
{
    let r = s.with_renamed_file(old, new);
    assert forall|t: Name, n: Name|
        #![trigger r.by_tags[t].contains(n)]
        r.by_tags.contains_key(t) implies (r.by_tags[t].contains(n) <==> r.files.contains_key(n)
        && r.files[n].tags.contains(t)) by {
        assert(s.by_tags[t].contains(n) == (s.files.contains_key(n) && s.files[n].tags.contains(t)));
        assert(s.by_tags[t].contains(old) == s.files[old].tags.contains(t));
    }
    assert forall|n: Name, t: Name|
        #![trigger r.files[n].tags.contains(t)]
        r.files.contains_key(n) && r.files[n].tags.contains(t) implies r.by_tags.contains_key(t) by {
        if n == new {
            assert(s.files[old].tags.contains(t));
        } else {
            assert(s.files[n].tags.contains(t));
        }
    }
    assert forall|k: Set<Name>, t: Name|
        #![trigger r.tagdirs.contains_key(k), k.contains(t)]
        r.tagdirs.contains_key(k) && k.contains(t) implies r.by_tags.contains_key(t) by {
        assert(s.tagdirs.contains_key(k));
    }
}

proof fn lemma_changed_tags(s: FsView, bn: Name, add: Set<Name>, remove: Set<Name>, ffn: Path)
    requires
        consistent(s),
        s.files.contains_key(bn),
    ensures
        consistent(s.with_changed_tags(bn, add, remove, ffn)),
{
    let r = s.with_changed_tags(bn, add, remove, ffn);
    assert forall|t: Name, n: Name|
        #![trigger r.by_tags[t].contains(n)]
        r.by_tags.contains_key(t) implies (r.by_tags[t].contains(n) <==> r.files.contains_key(n)
        && r.files[n].tags.contains(t)) by {
        if s.by_tags.contains_key(t) {
            let was = s.by_tags[t].contains(n);
            assert(was == (s.files.contains_key(n) && s.files[n].tags.contains(t)));
        } else {
            assert(s.files.contains_key(n) ==> !s.files[n].tags.contains(t));
        }
    }
    assert forall|n: Name, t: Name|
        #![trigger r.files[n].tags.contains(t)]
        r.files.contains_key(n) && r.files[n].tags.contains(t) implies r.by_tags.contains_key(t) by {
        if n != bn || !add.contains(t) {
            assert(s.files[n].tags.contains(t));
        }
    }
    assert forall|k: Set<Name>, t: Name|
        #![trigger r.tagdirs.contains_key(k), k.contains(t)]
        r.tagdirs.contains_key(k) && k.contains(t) implies r.by_tags.contains_key(t) by {
        assert(s.tagdirs.contains_key(k));
    }
}

/// A deleted file leaves the index consistent.
pub proof fn lemma_deleted_file(s: FsView, bn: Name)
    requires
        consistent(s),
        s.files.contains_key(bn),
    ensures
        consistent(s.without_file(bn)),
{
    let r = s.without_file(bn);
    assert forall|t: Name, n: Name|
        #![trigger r.by_tags[t].contains(n)]
        r.by_tags.contains_key(t) implies (r.by_tags[t].contains(n) <==> r.files.contains_key(n)
        && r.files[n].tags.contains(t)) by {
        let was = s.by_tags[t].contains(n);
        assert(was == (s.files.contains_key(n) && s.files[n].tags.contains(t)));
    }
    assert forall|n: Name, t: Name|
        #![trigger r.files[n].tags.contains(t)]
        r.files.contains_key(n) && r.files[n].tags.contains(t) implies r.by_tags.contains_key(t) by {
        assert(s.files[n].tags.contains(t));
    }
    assert forall|k: Set<Name>, t: Name|
        #![trigger r.tagdirs.contains_key(k), k.contains(t)]
        r.tagdirs.contains_key(k) && k.contains(t) implies r.by_tags.contains_key(t) by {
        assert(s.tagdirs.contains_key(k));
    }
}

proof fn lemma_removed_dir(s: FsView, tags: Set<Name>)
    requires
        consistent(s),
    ensures
        consistent(s.without_tagdir(tags)),
{
    let r = s.without_tagdir(tags);
    assert forall|t: Name, n: Name|
        #![trigger r.by_tags[t].contains(n)]
        r.by_tags.contains_key(t) implies (r.by_tags[t].contains(n) <==> r.files.contains_key(n)
        && r.files[n].tags.contains(t)) by {
        assert(s.by_tags[t].contains(n) == r.by_tags[t].contains(n));
    }
    assert forall|n: Name, t: Name|
        #![trigger r.files[n].tags.contains(t)]
        r.files.contains_key(n) && r.files[n].tags.contains(t) implies r.by_tags.contains_key(t) by {
        assert(s.files[n].tags.contains(t));
    }
    assert forall|k: Set<Name>, t: Name|
        #![trigger r.tagdirs.contains_key(k), k.contains(t)]
        r.tagdirs.contains_key(k) && k.contains(t) implies r.by_tags.contains_key(t) by {
        assert(s.tagdirs.contains_key(k));
    }
}

/// A renamed tag leaves the index consistent.
pub proof fn lemma_renamed_tag(s: FsView, old: Name, new: Name)
    requires
        consistent(s),
        old != new,
        !s.by_tags.contains_key(new),
    ensures
        consistent(s.with_renamed_tag(old, new)),
{
    let r = s.with_renamed_tag(old, new);
    assert forall|n: Name| #[trigger] s.files.contains_key(n) implies !s.files[n].tags.contains(new) by {}
    assert forall|t: Name, n: Name|
        #![trigger r.by_tags[t].contains(n)]
        r.by_tags.contains_key(t) implies (r.by_tags[t].contains(n) <==> r.files.contains_key(n)
        && r.files[n].tags.contains(t)) by {
        if s.files.contains_key(n) {
            assert(!s.files[n].tags.contains(new));
            assert(r.files[n] == renamed_entry(s.files[n], old, new));
        }
        let u = if t == new { old } else { t };
        if s.by_tags.contains_key(u) {
            let was = s.by_tags[u].contains(n);
            assert(was == (s.files.contains_key(n) && s.files[n].tags.contains(u)));
        } else {
            assert(s.files.contains_key(n) ==> !s.files[n].tags.contains(u));
        }
    }
    assert forall|n: Name, t: Name|
        #![trigger r.files[n].tags.contains(t)]
        r.files.contains_key(n) && r.files[n].tags.contains(t) implies r.by_tags.contains_key(t) by {
        assert(r.files[n] == renamed_entry(s.files[n], old, new));
        if t != new {
            assert(s.files[n].tags.contains(t));
            assert(t != old);
        }
    }
    assert forall|k: Set<Name>, t: Name|
        #![trigger r.tagdirs.contains_key(k), k.contains(t)]
        r.tagdirs.contains_key(k) && k.contains(t) implies r.by_tags.contains_key(t) by {
        let was = choose|m: Set<Name>| #[trigger]
            s.tagdirs.contains_key(m) && renamed_tags(m, old, new) == k;
        if t != new {
            assert(s.tagdirs.contains_key(was) && was.contains(t));
            assert(t != old);
        }
    }
}

/// A moved directory leaves the index consistent.
pub proof fn lemma_moved_dir(s: FsView, a: Path, b: Path)
    ensures
        consistent(s.with_moved_dir(a, b)),
{
    let r = s.with_moved_dir(a, b);
    let known = s.by_tags.dom();
    assert forall|n: Name, t: Name|
        #![trigger r.files[n].tags.contains(t)]
        r.files.contains_key(n) && r.files[n].tags.contains(t) implies r.by_tags.contains_key(t) by {
        assert(has_tag(known, r.files, r.tagdirs, t));
    }
    assert forall|k: Set<Name>, t: Name|
        #![trigger r.tagdirs.contains_key(k), k.contains(t)]
        r.tagdirs.contains_key(k) && k.contains(t) implies r.by_tags.contains_key(t) by {
        assert(has_tag(known, r.files, r.tagdirs, t));
    }
}

proof fn lemma_moved_dirs(s: FsView, moves: Seq<(Path, Path)>)
    requires
        consistent(s),
    ensures
        consistent(s.with_moved_dirs(moves)),
{
    if moves.len() > 0 {
        lemma_moved_dir(s.with_moved_dirs(moves.drop_last()), moves.last().0, moves.last().1);
    }
}

proof fn lemma_dir_gone(s: FsView, tags: Set<Name>)
    requires
        consistent(s),
        s.knows_dir(tags),
    ensures
        consistent(s.without_first_dir(tags)),
{
    let r = s.without_first_dir(tags);
    assert forall|t: Name, n: Name|
        #![trigger r.by_tags[t].contains(n)]
        r.by_tags.contains_key(t) implies (r.by_tags[t].contains(n) <==> r.files.contains_key(n)
        && r.files[n].tags.contains(t)) by {
        assert(s.by_tags[t].contains(n) == r.by_tags[t].contains(n));
    }
    assert forall|n: Name, t: Name|
        #![trigger r.files[n].tags.contains(t)]
        r.files.contains_key(n) && r.files[n].tags.contains(t) implies r.by_tags.contains_key(t) by {
        assert(s.files[n].tags.contains(t));
    }
    assert forall|k: Set<Name>, t: Name|
        #![trigger r.tagdirs.contains_key(k), k.contains(t)]
        r.tagdirs.contains_key(k) && k.contains(t) implies r.by_tags.contains_key(t) by {
        assert(s.tagdirs.contains_key(k));
    }
}

proof fn lemma_dir_for_tags(s: FsView, tags: Set<Name>)
    requires
        consistent(s),
    ensures
        consistent(s.with_dir_for_tags(tags)),
{
    if !s.knows_dir(tags) {
        lemma_touched(s, tags, s.dir_for_tags(tags));
    }
}

/// The state of a step is consistent.
pub open spec fn consistent_step(step: StepView) -> bool {
    match step {
        StepView::Ask(_, fs, _) => consistent(fs.state),
        StepView::End(fs, _) => consistent(fs.state),
    }
}

proof fn lemma_mkdir_done(fs: TagView, tags: Set<Name>)
    requires
        consistent(fs.state),
    ensures
        consistent_step(fs.mkdir_done(tags)),
{
    let s = fs.state.with_dir_for_tags(tags);
    lemma_dir_for_tags(fs.state, tags);
    lemma_inodes_do_not_matter(s, s.inodes.with_dir(tags));
}

proof fn lemma_retag(fs: TagView, bn: Name, add: Set<Name>, remove: Set<Name>)
    requires
        consistent(fs.state),
    ensures
        consistent_step(fs.retag_step(bn, add, remove)),
        fs.state.files.contains_key(bn) ==> consistent_step(fs.retag_placed(bn, add, remove)),
{
    if fs.state.files.contains_key(bn) {
        let tags = fs.state.changed_tags(bn, add, remove);
        lemma_dir_for_tags(fs.state, tags);
        let s = fs.state.with_dir_for_tags(tags);
        lemma_changed_tags(s, bn, add, remove, fs.state.files[bn].ffn);
    }
}

/// Every request that starts keeps the index consistent.
pub proof fn requests_start_consistent(fs: TagView, request: Request, step: StepView)
    requires
        consistent(fs.state),
        fs.state.inodes.next < u64::MAX,
        starts(fs, request, step),
    ensures
        consistent_step(step),
{
    match request {
        Request::Dir { tags } => {
            lemma_dir_for_tags(fs.state, tags);
        },
        Request::Mkdir { parent, name } => {
            if let Some(NodeView::Dir(tags)) = fs.node(parent) {
                lemma_mkdir_done(fs, tags.insert(name));
            }
        },
        Request::Create { parent, bn } => {
            if let Some(tags) = fs.tags_at(parent, bn) {
                lemma_dir_for_tags(fs.state, tags);
            }
        },
        Request::Rmdir { parent, name } => {
            if let Some(NodeView::Dir(tags)) = fs.node(parent) {
                lemma_removed_dir(fs.state, tags.insert(name));
            }
        },
        Request::Retag { bn, add, remove } => {
            lemma_retag(fs, bn, add, remove);
        },
        Request::RenameTag { old, new } => {
            if old != new && !fs.state.by_tags.contains_key(new) {
                lemma_renamed_tag(fs.state, old, new);
            }
        },
        Request::Rename { parent, name, new_parent, new_name } => {
            if name != new_name && !fs.state.by_tags.contains_key(new_name) {
                lemma_renamed_tag(fs.state, name, new_name);
            }
            match (
                fs.tags_before(parent, name, new_parent),
                fs.tags_after(parent, name, new_parent),
            ) {
                (Some(old_tags), Some(new_tags)) => {
                    lemma_retag(
                        fs,
                        name,
                        new_tags.difference(old_tags),
                        old_tags.difference(new_tags),
                    );
                },
                _ => {},
            }
        },
        _ => {},
    }
}

/// Every request that goes on keeps the index consistent, whatever came of the
/// operation.
pub proof fn requests_stay_consistent(fs: TagView, task: TaskView, reply: Reply)
    requires
        consistent(fs.state),
        task.fits(fs.state),
        prepared(fs.state, task),
    ensures
        consistent_step(fs.resumed(task, reply)),
{
    match task {
        TaskView::Dir { tags } => {
            lemma_dir_for_tags(fs.state, tags);
        },
        TaskView::Mkdir { tags } => {
            lemma_mkdir_done(fs, tags);
        },
        TaskView::CreateDir { bn, tags } => {
            lemma_dir_for_tags(fs.state, tags);
        },
        TaskView::CreateFile { bn, tags, ffn } => {
            lemma_new_file(fs.state, bn, tags, ffn);
        },
        TaskView::Unlink { bn } => {
            lemma_deleted_file(fs.state, bn);
        },
        TaskView::RmdirLook { tags } => {
            lemma_dir_gone(fs.state, tags);
            lemma_removed_dir(fs.state.without_first_dir(tags), tags);
        },
        TaskView::RmdirDrop { tags } => {
            lemma_dir_gone(fs.state, tags);
            lemma_removed_dir(fs.state.without_first_dir(tags), tags);
        },
        TaskView::RenameMove { old_bn, new_bn, add, remove } => {
            lemma_renamed_file(fs.state, old_bn, new_bn);
            lemma_retag(
                fs.with(fs.state.with_renamed_file(old_bn, new_bn)),
                new_bn,
                add,
                remove,
            );
        },
        TaskView::RetagDir { bn, add, remove } => {
            lemma_retag(fs, bn, add, remove);
        },
        TaskView::RetagMove { bn, add, remove, ffn } => {
            lemma_changed_tags(fs.state, bn, add, remove, ffn);
        },
        TaskView::TagLookOld { old, new, .. } => {
            lemma_renamed_tag(fs.state, old, new);
        },
        TaskView::TagLookNew { old, new, .. } => {
            lemma_renamed_tag(fs.state, old, new);
        },
        TaskView::TagMove { old, new, plan, at } => {
            lemma_renamed_tag(fs.state, old, new);
            lemma_moved_dirs(fs.state, plan.take(at));
        },
        _ => {},
    }
}

/// Lookups and listings keep the index consistent.
pub proof fn reading_stays_consistent(fs: TagView, ino: u64, name: Name)
    requires
        consistent(fs.state),
    ensures
        consistent(fs.after_lookup(ino, name).state),
        consistent(fs.listed(ino).state),
{
    lemma_inodes_do_not_matter(fs.state, fs.after_lookup(ino, name).state.inodes);
    lemma_inodes_do_not_matter(fs.state, fs.listed(ino).state.inodes);
}

} // verus!
