//! What a scan finds.
use vstd::prelude::*;

use crate::laws::filed::{all_dirs, filed, lemma_filed_alike, lemma_known_dir, lemma_with_file};
use crate::laws::plain::{lemma_join_name, lemma_plain_dir, plain, plain_path, plain_tags};
use crate::names::{Name, Path};
use crate::path::{is_name, leads_to};
use crate::scanner::{
    decimal, digit, dir_of, empty_scan, file_tags, first_free, free_bn, free_name_is_free, goes_on,
    name_tags, numbered, scan_entries, scan_entry, shown, stem_and_ext, with_scanned_dir,
    with_scanned_file, FileView, Found, Kind, ScanView,
};
use crate::sorted_map::{added, set_of};
use crate::state::FsView;
use crate::text::text_of;

verus! {

/// An entry as a directory can hold it: with a name that is one component, and
/// with such entries inside.
pub open spec fn entry_ok(e: Found) -> bool
    decreases e,
{
    is_name(e.name@) && plain(text_of(e.name@)) && entries_ok(e.inside@)
}

/// Entries as one directory can hold them: no two have the same name.
pub open spec fn entries_ok(inside: Seq<Found>) -> bool
    decreases inside,
{
    if inside.len() == 0 {
        true
    } else {
        &&& entries_ok(inside.drop_last())
        &&& entry_ok(inside.last())
        &&& forall|i: int|
            0 <= i < inside.len() - 1 ==> (#[trigger] inside[i]).name@ != inside.last().name@
    }
}

/// The files that are shown of an entry of `dir`.
pub open spec fn entry_files(dir: Path, e: Found, show_hidden: bool) -> Set<Path>
    decreases e,
{
    let p = dir.push(e.name@);
    if !shown(e.name@, show_hidden) {
        Set::empty()
    } else if e.target == Some(Kind::Dir) && goes_on(e) {
        tree_files(p, e.inside@, show_hidden)
    } else if e.target == Some(Kind::File) {
        Set::empty().insert(p)
    } else {
        Set::empty()
    }
}

/// The files that are shown of a tree.
pub open spec fn tree_files(dir: Path, inside: Seq<Found>, show_hidden: bool) -> Set<Path>
    decreases inside,
{
    if inside.len() == 0 {
        Set::empty()
    } else {
        tree_files(dir, inside.drop_last(), show_hidden).union(
            entry_files(dir, inside.last(), show_hidden),
        )
    }
}

/// The directories that are shown of an entry of `dir`.
pub open spec fn entry_dirs(dir: Path, e: Found, show_hidden: bool) -> Set<Path>
    decreases e,
{
    let p = dir.push(e.name@);
    if !shown(e.name@, show_hidden) || e.target != Some(Kind::Dir) {
        Set::empty()
    } else if goes_on(e) {
        tree_dirs(p, e.inside@, show_hidden).insert(p)
    } else {
        Set::empty().insert(p)
    }
}

/// The directories that are shown of a tree.
pub open spec fn tree_dirs(dir: Path, inside: Seq<Found>, show_hidden: bool) -> Set<Path>
    decreases inside,
{
    if inside.len() == 0 {
        Set::empty()
    } else {
        tree_dirs(dir, inside.drop_last(), show_hidden).union(
            entry_dirs(dir, inside.last(), show_hidden),
        )
    }
}

/// The places of all files of an index.
pub open spec fn places(files: Map<Name, FileView>) -> Set<Path> {
    Set::new(|p: Path| exists|n: Name| #[trigger] files.contains_key(n) && files[n].ffn == p)
}

/// No two names stand for one file.
pub open spec fn one_name_each(files: Map<Name, FileView>) -> bool {
    forall|m: Name, n: Name|
        #![trigger files[m].ffn, files[n].ffn]
        files.contains_key(m) && files.contains_key(n) && files[m].ffn == files[n].ffn ==> m == n
}

/// The directory of every file is known under the tags of the file.
pub open spec fn dirs_known(files: Map<Name, FileView>, tagdirs: Map<Set<Name>, Set<Path>>) -> bool {
    forall|n: Name| #[trigger]
        files.contains_key(n) ==> tagdirs.contains_key(files[n].tags) && tagdirs[files[n].tags].contains(
            dir_of(files[n].ffn),
        )
}

/// A directory is known under the names that lead to it.
pub open spec fn dir_known(tagdirs: Map<Set<Name>, Set<Path>>, p: Path) -> bool {
    tagdirs.contains_key(name_tags(p)) && tagdirs[name_tags(p)].contains(p)
}

/// An index as a scan makes it.
pub open spec fn indexed(acc: ScanView) -> bool {
    &&& filed(FsView::of_scan(acc))
    &&& acc.files.dom().finite()
    &&& one_name_each(acc.files)
    &&& dirs_known(acc.files, acc.tagdirs)
    &&& tags_found(acc)
}

/// Every tag is the name of a directory on the way to one that is known.
pub open spec fn tags_found(acc: ScanView) -> bool {
    forall|t: Name| #[trigger]
        acc.by_tags.contains_key(t) ==> exists|p: Path| #[trigger]
            all_dirs(acc.tagdirs).contains(p) && name_tags(p).contains(t)
}

proof fn lemma_numbered_plain(bn: Name, i: nat)
    requires
        plain(bn),
    ensures
        plain(numbered(bn, i)),
{
    let (stem, ext) = stem_and_ext(bn);
    let n = numbered(bn, i);
    lemma_decimal_no_slash(i);
    assert(n.len() >= 3);
    if n.contains('/') {
        let k = choose|k: int| 0 <= k < n.len() && n[k] == '/';
        if k < stem.len() {
            assert(stem[k] == '/');
            assert(bn[k] == '/');
        } else if k < stem.len() + 3 {
            assert(seq!['.', '_', '_'][k - stem.len()] == '/');
        } else if k < stem.len() + 3 + decimal(i).len() {
            assert(decimal(i)[k - stem.len() - 3] == '/');
            assert(decimal(i).contains('/'));
        } else {
            let j = k - stem.len() - 3 - decimal(i).len();
            assert(ext[j] == '/');
            assert(bn[stem.len() + j] == '/');
        }
    }
}

proof fn lemma_decimal_no_slash(i: nat)
    ensures
        !decimal(i).contains('/'),
    decreases i,
{
    if i >= 10 {
        lemma_decimal_no_slash(i / 10);
        let d = decimal(i);
        if d.contains('/') {
            let k = choose|k: int| 0 <= k < d.len() && d[k] == '/';
            assert(d == decimal(i / 10).push(digit((i % 10) as int)));
            if k < d.len() - 1 {
                assert(decimal(i / 10)[k] == '/');
            }
        }
    }
}

proof fn lemma_leads_apart(dir: Path, a: Seq<u8>, b: Seq<u8>, q: Path)
    requires
        leads_to(dir.push(a), q),
        leads_to(dir.push(b), q),
    ensures
        a == b,
{
    assert(dir.push(a)[dir.len() as int] == q[dir.len() as int]);
    assert(dir.push(b)[dir.len() as int] == q[dir.len() as int]);
}

proof fn lemma_leads_on(dir: Path, a: Seq<u8>, q: Path)
    requires
        leads_to(dir.push(a), q),
    ensures
        leads_to(dir, q),
{
    assert(q.take(dir.len() as int) =~= q.take(dir.len() as int + 1).take(dir.len() as int));
    assert(dir.push(a).take(dir.len() as int) =~= dir);
}

/// What a scan of one entry does to an index.
pub open spec fn entry_scanned(
    acc: ScanView,
    r: ScanView,
    dir: Path,
    e: Found,
    show_hidden: bool,
) -> bool {
    &&& indexed(r)
    &&& places(r.files) == places(acc.files).union(entry_files(dir, e, show_hidden))
    &&& forall|p: Path| #[trigger]
        entry_files(dir, e, show_hidden).contains(p) ==> leads_to(dir.push(e.name@), p)
    &&& forall|p: Path| #[trigger] entry_dirs(dir, e, show_hidden).contains(p) ==> dir_known(r.tagdirs, p)
    &&& forall|p: Path| #[trigger]
        all_dirs(r.tagdirs).contains(p) ==> all_dirs(acc.tagdirs).contains(p) || entry_dirs(
            dir,
            e,
            show_hidden,
        ).contains(p) || p == dir
    &&& forall|p: Path| #[trigger] dir_known(acc.tagdirs, p) ==> dir_known(r.tagdirs, p)
}

/// What a scan of the entries of a directory does to an index.
pub open spec fn entries_scanned(
    acc: ScanView,
    r: ScanView,
    dir: Path,
    inside: Seq<Found>,
    show_hidden: bool,
) -> bool {
    &&& indexed(r)
    &&& places(r.files) == places(acc.files).union(tree_files(dir, inside, show_hidden))
    &&& forall|p: Path| #[trigger]
        tree_files(dir, inside, show_hidden).contains(p) ==> exists|i: int|
            0 <= i < inside.len() && leads_to(dir.push((#[trigger] inside[i]).name@), p)
    &&& forall|p: Path| #[trigger] tree_dirs(dir, inside, show_hidden).contains(p) ==> dir_known(r.tagdirs, p)
    &&& forall|p: Path| #[trigger]
        all_dirs(r.tagdirs).contains(p) ==> all_dirs(acc.tagdirs).contains(p) || tree_dirs(
            dir,
            inside,
            show_hidden,
        ).contains(p) || p == dir
    &&& forall|p: Path| #[trigger] dir_known(acc.tagdirs, p) ==> dir_known(r.tagdirs, p)
}

proof fn lemma_added_dirs(m: Map<Set<Name>, Set<Path>>, k: Set<Name>, p: Path)
    ensures
        all_dirs(added(m, k, p)) == all_dirs(m).insert(p),
{
    let n = added(m, k, p);
    assert(n[k] == set_of(m, k).insert(p));
    assert forall|q: Path| #[trigger] all_dirs(n).contains(q) == all_dirs(m).insert(p).contains(
        q,
    ) by {
        if all_dirs(n).contains(q) && q != p {
            let j = choose|j: Set<Name>| #[trigger] n.contains_key(j) && n[j].contains(q);
            if j == k {
                assert(set_of(m, k).contains(q));
            }
            assert(m.contains_key(j) && m[j].contains(q));
        }
        if all_dirs(m).contains(q) {
            let j = choose|j: Set<Name>| #[trigger] m.contains_key(j) && m[j].contains(q);
            if j == k {
                assert(set_of(m, k).contains(q));
            }
            assert(n.contains_key(j) && n[j].contains(q));
        }
        assert(n.contains_key(k) && n[k].contains(p));
    }
    assert(all_dirs(n) =~= all_dirs(m).insert(p));
}

proof fn lemma_scanned_dir(acc: ScanView, p: Path)
    requires
        indexed(acc),
        plain_path(p),
    ensures
        indexed(with_scanned_dir(acc, p)),
        dir_known(with_scanned_dir(acc, p).tagdirs, p),
        forall|q: Path| #[trigger]
            dir_known(acc.tagdirs, q) ==> dir_known(with_scanned_dir(acc, p).tagdirs, q),
        all_dirs(with_scanned_dir(acc, p).tagdirs) == all_dirs(acc.tagdirs).insert(p),
{
    let s = FsView::of_scan(acc);
    let r = with_scanned_dir(acc, p);
    let mid = FsView { tagdirs: added(s.tagdirs, name_tags(p), p), ..s };
    lemma_added_dirs(acc.tagdirs, name_tags(p), p);
    assert forall|t: Name| #[trigger] r.by_tags.contains_key(t) implies exists|q: Path| #[trigger]
        all_dirs(r.tagdirs).contains(q) && name_tags(q).contains(t) by {
        if name_tags(p).contains(t) {
            assert(all_dirs(r.tagdirs).contains(p));
        } else {
            assert(acc.by_tags.contains_key(t));
            let q = choose|q: Path| #[trigger]
                all_dirs(acc.tagdirs).contains(q) && name_tags(q).contains(t);
            assert(all_dirs(r.tagdirs).contains(q));
        }
    }
    lemma_known_dir(s, name_tags(p), p);
    lemma_filed_alike(mid, FsView::of_scan(r));
    assert forall|n: Name| #[trigger] r.files.contains_key(n) implies r.tagdirs.contains_key(
        r.files[n].tags,
    ) && r.tagdirs[r.files[n].tags].contains(dir_of(r.files[n].ffn)) by {
        assert(acc.files.contains_key(n));
    }
}

proof fn lemma_scanned_file(acc: ScanView, p: Path, name: Name)
    requires
        indexed(acc),
        plain_path(p),
        p.len() > 0,
        plain(name),
        !places(acc.files).contains(p),
    ensures
        indexed(with_scanned_file(acc, p, name)),
        places(with_scanned_file(acc, p, name).files) == places(acc.files).insert(p),
        forall|q: Path| #[trigger]
            dir_known(acc.tagdirs, q) ==> dir_known(with_scanned_file(acc, p, name).tagdirs, q),
        all_dirs(with_scanned_file(acc, p, name).tagdirs) == all_dirs(acc.tagdirs).insert(
            p.drop_last(),
        ),
{
    let s = FsView::of_scan(acc);
    let r = with_scanned_file(acc, p, name);
    let bn = free_bn(name, acc.files.dom());
    free_name_is_free(name, acc.files.dom());
    assert(plain(bn)) by {
        if acc.files.dom().contains(name) {
            lemma_numbered_plain(
                name,
                choose|i: nat| first_free(name, acc.files.dom(), i),
            );
        }
    }
    lemma_plain_dir(p);
    let mid = FsView { tagdirs: added(s.tagdirs, file_tags(p), dir_of(p)), ..s };
    lemma_added_dirs(acc.tagdirs, file_tags(p), dir_of(p));
    assert forall|t: Name| #[trigger] r.by_tags.contains_key(t) implies exists|q: Path| #[trigger]
        all_dirs(r.tagdirs).contains(q) && name_tags(q).contains(t) by {
        if file_tags(p).contains(t) {
            assert(all_dirs(r.tagdirs).contains(dir_of(p)));
            assert(name_tags(dir_of(p)).contains(t));
        } else {
            assert(acc.by_tags.contains_key(t));
            let q = choose|q: Path| #[trigger]
                all_dirs(acc.tagdirs).contains(q) && name_tags(q).contains(t);
            assert(all_dirs(r.tagdirs).contains(q));
        }
    }
    lemma_known_dir(s, file_tags(p), dir_of(p));
    lemma_with_file(mid, FsView::of_scan(r), bn);
    assert(one_name_each(r.files)) by {
        assert forall|m: Name, n: Name|
            #![trigger r.files[m].ffn, r.files[n].ffn]
            r.files.contains_key(m) && r.files.contains_key(n) && r.files[m].ffn == r.files[n].ffn
            implies m == n by {
            if m != bn && n != bn {
                assert(acc.files[m].ffn == acc.files[n].ffn);
            } else if m != bn {
                assert(acc.files.contains_key(m));
                assert(places(acc.files).contains(p));
            } else if n != bn {
                assert(acc.files.contains_key(n));
                assert(places(acc.files).contains(p));
            }
        }
    }
    assert(dirs_known(r.files, r.tagdirs)) by {
        assert forall|n: Name| #[trigger] r.files.contains_key(n) implies r.tagdirs.contains_key(
            r.files[n].tags,
        ) && r.tagdirs[r.files[n].tags].contains(dir_of(r.files[n].ffn)) by {
            if n != bn {
                assert(acc.files.contains_key(n));
            }
        }
    }
    assert forall|q: Path| #[trigger] places(r.files).contains(q) <==> places(
        acc.files,
    ).insert(p).contains(q) by {
        if places(r.files).contains(q) {
            let n = choose|n: Name| #[trigger] r.files.contains_key(n) && r.files[n].ffn == q;
            if n != bn {
                assert(acc.files.contains_key(n));
            }
        }
        if places(acc.files).contains(q) {
            let n = choose|n: Name| #[trigger] acc.files.contains_key(n) && acc.files[n].ffn == q;
            assert(r.files.contains_key(n));
        }
        if q == p {
            assert(r.files.contains_key(bn));
        }
    }
    assert(places(r.files) =~= places(acc.files).insert(p));
}

proof fn lemma_entry(acc: ScanView, dir: Path, e: Found, show_hidden: bool)
    requires
        indexed(acc),
        plain_path(dir),
        entry_ok(e),
        forall|p: Path| #[trigger] places(acc.files).contains(p) ==> !leads_to(dir.push(e.name@), p),
    ensures
        entry_scanned(acc, scan_entry(acc, dir, e, show_hidden), dir, e, show_hidden),
    decreases e,
{
    let p = dir.push(e.name@);
    let r = scan_entry(acc, dir, e, show_hidden);
    lemma_join_name(dir, e.name@);
    assert(plain_path(p));
    if !shown(e.name@, show_hidden) {
        assert(places(r.files) =~= places(acc.files).union(entry_files(dir, e, show_hidden)));
    } else if e.target == Some(Kind::Dir) {
        let mid = with_scanned_dir(acc, p);
        lemma_scanned_dir(acc, p);
        if goes_on(e) {
            assert forall|q: Path, i: int| 0 <= i < e.inside@.len() && #[trigger] places(
                mid.files,
            ).contains(q) implies !#[trigger] leads_to(p.push(e.inside@[i].name@), q) by {
                if leads_to(p.push(e.inside@[i].name@), q) {
                    lemma_leads_on(p, e.inside@[i].name@, q);
                }
            }
            lemma_entries(mid, p, e.inside@, show_hidden);
            assert forall|q: Path| #[trigger] entry_files(dir, e, show_hidden).contains(q) implies leads_to(
                p,
                q,
            ) by {
                let i = choose|i: int|
                    0 <= i < e.inside@.len() && leads_to(p.push((#[trigger] e.inside@[i]).name@), q);
                lemma_leads_on(p, e.inside@[i].name@, q);
            }
            assert forall|q: Path| #[trigger] entry_dirs(dir, e, show_hidden).contains(q) implies dir_known(
                r.tagdirs,
                q,
            ) by {
                if q == p {
                    assert(dir_known(mid.tagdirs, q));
                } else {
                    assert(tree_dirs(p, e.inside@, show_hidden).contains(q));
                }
            }
        } else {
            assert(places(r.files) =~= places(acc.files).union(entry_files(dir, e, show_hidden)));
        }
    } else if e.target == Some(Kind::File) {
        assert(p.take(p.len() as int) =~= p);
        assert(leads_to(p, p));
        lemma_scanned_file(acc, p, text_of(e.name@));
        assert(p.drop_last() =~= dir);
        assert(places(r.files) =~= places(acc.files).union(entry_files(dir, e, show_hidden)));
    } else {
        assert(places(r.files) =~= places(acc.files).union(entry_files(dir, e, show_hidden)));
    }
}

proof fn lemma_entries(acc: ScanView, dir: Path, inside: Seq<Found>, show_hidden: bool)
    requires
        indexed(acc),
        plain_path(dir),
        entries_ok(inside),
        forall|p: Path, i: int|
            0 <= i < inside.len() && #[trigger] places(acc.files).contains(p) ==> !#[trigger] leads_to(
                dir.push(inside[i].name@),
                p,
            ),
    ensures
        entries_scanned(acc, scan_entries(acc, dir, inside, show_hidden), dir, inside, show_hidden),
    decreases inside,
{
    let r = scan_entries(acc, dir, inside, show_hidden);
    if inside.len() == 0 {
        assert(places(r.files) =~= places(acc.files).union(tree_files(dir, inside, show_hidden)));
    } else {
        let most = inside.drop_last();
        let last = inside.last();
        assert forall|p: Path, i: int| 0 <= i < most.len() && #[trigger] places(acc.files).contains(
            p,
        ) implies !#[trigger] leads_to(dir.push(most[i].name@), p) by {
            assert(most[i] == inside[i]);
        }
        lemma_entries(acc, dir, most, show_hidden);
        let mid = scan_entries(acc, dir, most, show_hidden);
        assert forall|p: Path| #[trigger] places(mid.files).contains(p) implies !leads_to(
            dir.push(last.name@),
            p,
        ) by {
            if leads_to(dir.push(last.name@), p) {
                assert(last == inside[inside.len() - 1]);
                if tree_files(dir, most, show_hidden).contains(p) {
                    let i = choose|i: int|
                        0 <= i < most.len() && leads_to(dir.push((#[trigger] most[i]).name@), p);
                    lemma_leads_apart(dir, most[i].name@, last.name@, p);
                    assert(inside[i].name@ != last.name@);
                } else {
                    assert(places(acc.files).contains(p));
                }
            }
        }
        lemma_entry(mid, dir, last, show_hidden);
        assert(places(r.files) =~= places(acc.files).union(tree_files(dir, inside, show_hidden)));
        assert forall|p: Path| #[trigger]
            tree_files(dir, inside, show_hidden).contains(p) implies exists|i: int|
            0 <= i < inside.len() && leads_to(dir.push((#[trigger] inside[i]).name@), p) by {
            if tree_files(dir, most, show_hidden).contains(p) {
                let i = choose|i: int|
                    0 <= i < most.len() && leads_to(dir.push((#[trigger] most[i]).name@), p);
                assert(most[i] == inside[i]);
            } else {
                let i = inside.len() - 1;
                assert(inside[i] == last);
            }
        }
        assert forall|p: Path| #[trigger] tree_dirs(dir, inside, show_hidden).contains(p) implies dir_known(
            r.tagdirs,
            p,
        ) by {
            if tree_dirs(dir, most, show_hidden).contains(p) {
                assert(dir_known(mid.tagdirs, p));
            } else {
                assert(entry_dirs(dir, last, show_hidden).contains(p));
            }
        }
    }
}

/// A scan gives every file that is shown exactly one name, and no name to anything
/// else. Every file has the names of the directories above it as tags. Every
/// directory that is shown is known under the names that lead to it, and no other
/// is but the top.
pub proof fn scan_finds_every_file(top: Seq<Found>, show_hidden: bool)
    requires
        entries_ok(top),
    ensures
        ({
            let scan = scan_entries(empty_scan(), Seq::empty(), top, show_hidden);
            &&& filed(FsView::of_scan(scan))
            &&& one_name_each(scan.files)
            &&& places(scan.files) == tree_files(Seq::empty(), top, show_hidden)
            &&& dirs_known(scan.files, scan.tagdirs)
            &&& forall|p: Path| #[trigger]
                tree_dirs(Seq::empty(), top, show_hidden).contains(p) ==> dir_known(scan.tagdirs, p)
            &&& forall|p: Path| #[trigger]
                all_dirs(scan.tagdirs).contains(p) ==> p.len() == 0 || tree_dirs(
                    Seq::empty(),
                    top,
                    show_hidden,
                ).contains(p)
            &&& tags_found(scan)
        }),
{
    let none = empty_scan();
    assert(indexed(none)) by {
        let s = FsView::of_scan(none);
        assert(plain_tags(Set::empty()));
        assert(all_dirs(s.tagdirs) =~= Set::<Path>::empty());
    }
    assert(places(none.files) =~= Set::<Path>::empty());
    lemma_entries(none, Seq::empty(), top, show_hidden);
    assert(places(none.files).union(tree_files(Seq::empty(), top, show_hidden)) =~= tree_files(
        Seq::empty(),
        top,
        show_hidden,
    ));
}

} // verus!
