//! What a scan leaves out.
use vstd::prelude::*;

use crate::laws::filed::all_dirs;
use crate::laws::scanned::{
    dir_known, entries_ok, entry_dirs, entry_files, places, scan_finds_every_file, tree_dirs,
    tree_files,
};
use crate::names::{Name, Path};
use crate::path::{is_name, leads_to};
use crate::scanner::{
    empty_scan, goes_on, name_tags, scan_entries, scan_entry, shown, Found, Kind, ScanView,
};
use crate::text::text_of;

verus! {

/// A scan passes over the entry: it is hidden, leads nowhere, or leads to what is
/// neither a directory nor a file.
pub open spec fn passed_over(e: Found, show_hidden: bool) -> bool {
    !shown(e.name@, show_hidden) || e.target is None || e.target == Some(Kind::Other)
}

/// An entry that a scan passes over might as well not be there: whatever was found
/// before, the scan of the directory gives the same without it.
pub proof fn entries_passed_over_do_not_matter(
    acc: ScanView,
    dir: Path,
    inside: Seq<Found>,
    i: int,
    show_hidden: bool,
)
    requires
        0 <= i < inside.len(),
        passed_over(inside[i], show_hidden),
    ensures
        scan_entries(acc, dir, inside.remove(i), show_hidden) == scan_entries(
            acc,
            dir,
            inside,
            show_hidden,
        ),
    decreases inside.len(),
{
    if i == inside.len() - 1 {
        assert(inside.remove(i) =~= inside.drop_last());
        let most = scan_entries(acc, dir, inside.drop_last(), show_hidden);
        assert(inside.last() == inside[i]);
        assert(scan_entry(most, dir, inside.last(), show_hidden) == most);
    } else {
        entries_passed_over_do_not_matter(acc, dir, inside.drop_last(), i, show_hidden);
        let less = inside.remove(i);
        assert(less.drop_last() =~= inside.drop_last().remove(i));
        assert(less.last() == inside.last());
    }
}

/// No component of `p` from place `n` on is hidden.
pub open spec fn in_view(p: Path, n: int) -> bool {
    forall|j: int| n <= j < p.len() ==> shown(#[trigger] p[j], false)
}

proof fn lemma_below_entry(p: Path, dir: Path, name: Seq<u8>)
    requires
        leads_to(dir.push(name), p),
    ensures
        p.len() > dir.len(),
        p[dir.len() as int] == name,
        in_view(p, dir.len() as int) == (shown(name, false) && in_view(p, dir.len() as int + 1)),
{
    assert(p.take(dir.len() as int + 1)[dir.len() as int] == p[dir.len() as int]);
    if in_view(p, dir.len() as int) {
        assert(shown(p[dir.len() as int], false));
    }
}

proof fn lemma_one_up(p: Path, dir: Path, name: Seq<u8>)
    requires
        leads_to(dir.push(name), p),
    ensures
        leads_to(dir, p),
{
    assert(p.take(dir.len() as int) =~= p.take(dir.len() as int + 1).take(dir.len() as int));
    assert(dir.push(name).take(dir.len() as int) =~= dir);
}

/// What is found below an entry, with and without hidden names.
proof fn lemma_entry_in_view(dir: Path, e: Found, p: Path)
    ensures
        entry_files(dir, e, false).contains(p) == (entry_files(dir, e, true).contains(p)
            && in_view(p, dir.len() as int)),
        entry_dirs(dir, e, false).contains(p) == (entry_dirs(dir, e, true).contains(p)
            && in_view(p, dir.len() as int)),
        entry_files(dir, e, true).contains(p) || entry_dirs(dir, e, true).contains(p) ==> leads_to(
            dir.push(e.name@),
            p,
        ),
    decreases e,
{
    let q = dir.push(e.name@);
    if e.target == Some(Kind::Dir) && goes_on(e) {
        lemma_tree_in_view(q, e.inside@, p);
    }
    assert(q.take(q.len() as int) =~= q);
    if entry_files(dir, e, true).contains(p) || entry_dirs(dir, e, true).contains(p) {
        lemma_below_entry(p, dir, e.name@);
        if p == q {
            assert(in_view(p, dir.len() as int + 1));
        }
    }
}

/// What is found in a directory, with and without hidden names.
proof fn lemma_tree_in_view(dir: Path, inside: Seq<Found>, p: Path)
    ensures
        tree_files(dir, inside, false).contains(p) == (tree_files(dir, inside, true).contains(p)
            && in_view(p, dir.len() as int)),
        tree_dirs(dir, inside, false).contains(p) == (tree_dirs(dir, inside, true).contains(p)
            && in_view(p, dir.len() as int)),
        tree_files(dir, inside, true).contains(p) || tree_dirs(dir, inside, true).contains(p)
            ==> leads_to(dir, p) && p.len() > dir.len(),
    decreases inside,
{
    if inside.len() > 0 {
        lemma_tree_in_view(dir, inside.drop_last(), p);
        lemma_entry_in_view(dir, inside.last(), p);
        if leads_to(dir.push(inside.last().name@), p) {
            lemma_one_up(p, dir, inside.last().name@);
        }
    }
}

/// A scan without hidden names finds what a scan with them finds, but for what has
/// a hidden name on its path. No tag of it is hidden.
pub proof fn hidden_names_are_left_out(top: Seq<Found>)
    requires
        entries_ok(top),
    ensures
        ({
            let few = scan_entries(empty_scan(), Seq::empty(), top, false);
            let all = scan_entries(empty_scan(), Seq::empty(), top, true);
            &&& forall|p: Path| #[trigger]
                places(few.files).contains(p) <==> places(all.files).contains(p) && in_view(p, 0)
            &&& forall|p: Path|
                p.len() > 0 ==> (#[trigger] all_dirs(few.tagdirs).contains(p) <==> all_dirs(
                    all.tagdirs,
                ).contains(p) && in_view(p, 0))
            &&& forall|t: Name| #[trigger]
                few.by_tags.contains_key(t) ==> !(t.len() > 0 && t[0] == '.')
        }),
{
    let none = Seq::<Seq<u8>>::empty();
    let few = scan_entries(empty_scan(), none, top, false);
    let all = scan_entries(empty_scan(), none, top, true);
    scan_finds_every_file(top, false);
    scan_finds_every_file(top, true);
    assert forall|p: Path| #[trigger] places(few.files).contains(p) <==> places(
        all.files,
    ).contains(p) && in_view(p, 0) by {
        lemma_tree_in_view(none, top, p);
    }
    assert forall|p: Path| p.len() > 0 implies (#[trigger] all_dirs(few.tagdirs).contains(p)
        <==> all_dirs(all.tagdirs).contains(p) && in_view(p, 0)) by {
        lemma_tree_in_view(none, top, p);
        if tree_dirs(none, top, false).contains(p) {
            assert(dir_known(few.tagdirs, p));
        }
        if tree_dirs(none, top, true).contains(p) {
            assert(dir_known(all.tagdirs, p));
        }
    }
    assert forall|t: Name| #[trigger] few.by_tags.contains_key(t) implies !(t.len() > 0 && t[0]
        == '.') by {
        let p = choose|p: Path| #[trigger]
            all_dirs(few.tagdirs).contains(p) && name_tags(p).contains(t);
        let i = choose|i: int|
            0 <= i < p.len() && is_name(#[trigger] p[i]) && text_of(p[i]) == t;
        assert(in_view(p, 0));
        assert(shown(p[i], false));
    }
}

} // verus!
