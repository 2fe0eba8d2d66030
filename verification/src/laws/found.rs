//! What a scan finds, by the ways that lead through the source tree.
use vstd::prelude::*;

use crate::laws::filed::all_dirs;
use crate::laws::scanned::{
    dir_known, entries_ok, entry_dirs, entry_files, places, scan_finds_every_file, tree_dirs,
    tree_files,
};
use crate::names::Path;
use crate::scanner::{empty_scan, goes_on, scan_entries, shown, Found, Kind};
use crate::text::text_of;

verus! {

/// The text of a name begins with a dot.
pub open spec fn begins_with_dot(name: Seq<u8>) -> bool {
    text_of(name).len() > 0 && text_of(name)[0] == '.'
}

/// `a` is a directory itself, not a link to one, and `b` is in it.
pub open spec fn holds(a: Found, b: Found) -> bool {
    a.target == Some(Kind::Dir) && a.real_dir && a.inside@.contains(b)
}

/// A way through the tree: it begins with one of the entries `inside`, and goes on
/// from each directory to an entry in it.
pub open spec fn is_way(inside: Seq<Found>, way: Seq<Found>) -> bool {
    &&& way.len() > 0
    &&& inside.contains(way[0])
    &&& forall|i: int, j: int|
        0 <= i && j == i + 1 && j < way.len() ==> holds(#[trigger] way[i], #[trigger] way[j])
}

/// The names on a way.
pub open spec fn way_path(way: Seq<Found>) -> Path {
    Seq::new(way.len(), |i: int| way[i].name@)
}

/// Hidden names are shown, or no name on the way begins with a dot.
pub open spec fn in_sight(way: Seq<Found>, show_hidden: bool) -> bool {
    show_hidden || forall|i: int|
        0 <= i < way.len() ==> !begins_with_dot((#[trigger] way[i]).name@)
}

/// The path is that of a way in sight that leads to something of this kind.
pub open spec fn reached(inside: Seq<Found>, p: Path, kind: Kind, show_hidden: bool) -> bool {
    exists|way: Seq<Found>| #[trigger]
        is_way(inside, way) && way_path(way) == p && way.last().target == Some(kind) && in_sight(
            way,
            show_hidden,
        )
}

proof fn lemma_prepended(dir: Path, e: Found, p: Path, kind: Kind, show_hidden: bool)
    requires
        e.target == Some(Kind::Dir),
        e.real_dir,
        show_hidden || !begins_with_dot(e.name@),
        p.len() > dir.len() + 1,
        p.take(dir.len() as int + 1) == dir.push(e.name@),
        reached(e.inside@, p.skip(dir.len() as int + 1), kind, show_hidden),
    ensures
        p.take(dir.len() as int) == dir,
        reached(seq![e], p.skip(dir.len() as int), kind, show_hidden),
{
    let n = dir.len() as int;
    let rest = choose|way: Seq<Found>| #[trigger]
        is_way(e.inside@, way) && way_path(way) == p.skip(n + 1) && way.last().target == Some(kind)
            && in_sight(way, show_hidden);
    let way = seq![e] + rest;
    assert(p.take(n) =~= p.take(n + 1).take(n));
    assert(dir.push(e.name@).take(n) =~= dir);
    assert(p[n] == p.take(n + 1)[n]);
    assert(seq![e][0] == e);
    assert(seq![e].contains(way[0]));
    assert forall|i: int, j: int| 0 <= i && j == i + 1 && j < way.len() implies holds(
        #[trigger] way[i],
        #[trigger] way[j],
    ) by {
        if i > 0 {
            assert(holds(rest[i - 1], rest[j - 1]));
        }
    }
    assert(way_path(way) =~= p.skip(n)) by {
        assert(way_path(rest).len() == rest.len());
        assert(way_path(rest) == p.skip(n + 1));
        assert(p.skip(n) =~= seq![p[n]] + p.skip(n + 1));
        assert(way_path(way) =~= seq![e.name@] + way_path(rest));
        assert(dir.push(e.name@)[n] == e.name@);
    }
    assert(way.last() == rest.last());
    assert(in_sight(way, show_hidden)) by {
        if !show_hidden {
            assert forall|i: int| 0 <= i < way.len() implies !begins_with_dot(
                (#[trigger] way[i]).name@,
            ) by {
                if i > 0 {
                    assert(!begins_with_dot(rest[i - 1].name@));
                }
            }
        }
    }
    assert(is_way(seq![e], way));
}

proof fn lemma_one_entry(dir: Path, e: Found, kind: Kind, show_hidden: bool)
    requires
        e.target == Some(kind),
        show_hidden || !begins_with_dot(e.name@),
    ensures
        reached(
            seq![e],
            dir.push(e.name@).skip(dir.len() as int),
            kind,
            show_hidden,
        ),
        dir.push(e.name@).take(dir.len() as int) == dir,
{
    let way = seq![e];
    assert(dir.push(e.name@).take(dir.len() as int) =~= dir);
    assert(way[0] == e);
    assert(is_way(way, way));
    assert(way_path(way) =~= dir.push(e.name@).skip(dir.len() as int));
    assert(in_sight(way, show_hidden));
}

/// What is found below an entry is reached by some way.
proof fn lemma_entry_reached(dir: Path, e: Found, show_hidden: bool, p: Path)
    ensures
        entry_files(dir, e, show_hidden).contains(p) ==> p.len() > dir.len() && p.take(
            dir.len() as int,
        ) == dir && reached(seq![e], p.skip(dir.len() as int), Kind::File, show_hidden),
        entry_dirs(dir, e, show_hidden).contains(p) ==> p.len() > dir.len() && p.take(
            dir.len() as int,
        ) == dir && reached(seq![e], p.skip(dir.len() as int), Kind::Dir, show_hidden),
    decreases e,
{
    let q = dir.push(e.name@);
    if shown(e.name@, show_hidden) {
        assert(show_hidden || !begins_with_dot(e.name@));
        if e.target == Some(Kind::Dir) && goes_on(e) {
            lemma_tree_reached(q, e.inside@, show_hidden, p);
            if tree_files(q, e.inside@, show_hidden).contains(p) {
                lemma_prepended(dir, e, p, Kind::File, show_hidden);
            }
            if tree_dirs(q, e.inside@, show_hidden).contains(p) {
                lemma_prepended(dir, e, p, Kind::Dir, show_hidden);
            }
        }
        if e.target == Some(Kind::Dir) {
            lemma_one_entry(dir, e, Kind::Dir, show_hidden);
        }
        if e.target == Some(Kind::File) {
            lemma_one_entry(dir, e, Kind::File, show_hidden);
        }
    }
}

proof fn lemma_more_entries(few: Seq<Found>, more: Seq<Found>, p: Path, kind: Kind, show_hidden: bool)
    requires
        reached(few, p, kind, show_hidden),
        forall|e: Found| #[trigger] few.contains(e) ==> more.contains(e),
    ensures
        reached(more, p, kind, show_hidden),
{
    let way = choose|way: Seq<Found>| #[trigger]
        is_way(few, way) && way_path(way) == p && way.last().target == Some(kind) && in_sight(
            way,
            show_hidden,
        );
    assert(few.contains(way[0]));
    assert(is_way(more, way));
}

/// What is found in a directory is reached by some way.
proof fn lemma_tree_reached(dir: Path, inside: Seq<Found>, show_hidden: bool, p: Path)
    ensures
        tree_files(dir, inside, show_hidden).contains(p) ==> p.len() > dir.len() && p.take(
            dir.len() as int,
        ) == dir && reached(inside, p.skip(dir.len() as int), Kind::File, show_hidden),
        tree_dirs(dir, inside, show_hidden).contains(p) ==> p.len() > dir.len() && p.take(
            dir.len() as int,
        ) == dir && reached(inside, p.skip(dir.len() as int), Kind::Dir, show_hidden),
    decreases inside,
{
    if inside.len() > 0 {
        let few = inside.drop_last();
        let last = inside.last();
        let rest = p.skip(dir.len() as int);
        lemma_tree_reached(dir, few, show_hidden, p);
        lemma_entry_reached(dir, last, show_hidden, p);
        assert forall|e: Found| #[trigger] few.contains(e) implies inside.contains(e) by {
            let i = choose|i: int| 0 <= i < few.len() && few[i] == e;
            assert(inside[i] == e);
        }
        assert forall|e: Found| #[trigger] seq![last].contains(e) implies inside.contains(e) by {
            assert(inside[inside.len() - 1] == e);
        }
        if tree_files(dir, few, show_hidden).contains(p) {
            lemma_more_entries(few, inside, rest, Kind::File, show_hidden);
        } else if tree_files(dir, inside, show_hidden).contains(p) {
            lemma_more_entries(seq![last], inside, rest, Kind::File, show_hidden);
        }
        if tree_dirs(dir, few, show_hidden).contains(p) {
            lemma_more_entries(few, inside, rest, Kind::Dir, show_hidden);
        } else if tree_dirs(dir, inside, show_hidden).contains(p) {
            lemma_more_entries(seq![last], inside, rest, Kind::Dir, show_hidden);
        }
    }
}

proof fn lemma_entry_in_tree(dir: Path, inside: Seq<Found>, show_hidden: bool, e: Found, p: Path)
    requires
        inside.contains(e),
    ensures
        entry_files(dir, e, show_hidden).contains(p) ==> tree_files(
            dir,
            inside,
            show_hidden,
        ).contains(p),
        entry_dirs(dir, e, show_hidden).contains(p) ==> tree_dirs(dir, inside, show_hidden).contains(
            p,
        ),
    decreases inside.len(),
{
    let i = choose|i: int| 0 <= i < inside.len() && inside[i] == e;
    if i < inside.len() - 1 {
        assert(inside.drop_last()[i] == e);
        lemma_entry_in_tree(dir, inside.drop_last(), show_hidden, e, p);
    }
}

/// Every way in sight leads to something that is found.
proof fn lemma_way_found(dir: Path, inside: Seq<Found>, show_hidden: bool, way: Seq<Found>)
    requires
        is_way(inside, way),
        in_sight(way, show_hidden),
    ensures
        way.last().target == Some(Kind::File) ==> tree_files(dir, inside, show_hidden).contains(
            dir + way_path(way),
        ),
        way.last().target == Some(Kind::Dir) ==> tree_dirs(dir, inside, show_hidden).contains(
            dir + way_path(way),
        ),
    decreases way.len(),
{
    let e = way[0];
    let p = dir + way_path(way);
    let q = dir.push(e.name@);
    assert(show_hidden || !begins_with_dot(way[0].name@));
    assert(shown(e.name@, show_hidden));
    if way.len() == 1 {
        assert(p =~= q);
    } else {
        let rest = way.drop_first();
        assert(holds(way[0], way[1]));
        assert forall|i: int, j: int| 0 <= i && j == i + 1 && j < rest.len() implies holds(
            #[trigger] rest[i],
            #[trigger] rest[j],
        ) by {
            assert(holds(way[i + 1], way[j + 1]));
        }
        if !show_hidden {
            assert forall|i: int| 0 <= i < rest.len() implies !begins_with_dot(
                (#[trigger] rest[i]).name@,
            ) by {
                assert(!begins_with_dot(way[i + 1].name@));
            }
        }
        lemma_way_found(q, e.inside@, show_hidden, rest);
        assert(rest.last() == way.last());
        assert(q + way_path(rest) =~= p);
    }
    lemma_entry_in_tree(dir, inside, show_hidden, e, p);
}

/// A scan finds the files and the directories that some way leads to, through
/// directories and not through links to them. Without hidden names it finds those
/// for which no name on the way begins with a dot. It finds nothing else but the
/// top.
pub proof fn scan_finds_what_ways_lead_to(top: Seq<Found>, show_hidden: bool)
    requires
        entries_ok(top),
    ensures
        ({
            let scan = scan_entries(empty_scan(), Seq::empty(), top, show_hidden);
            &&& forall|p: Path| #[trigger]
                places(scan.files).contains(p) <==> reached(top, p, Kind::File, show_hidden)
            &&& forall|p: Path|
                p.len() > 0 ==> (#[trigger] all_dirs(scan.tagdirs).contains(p) <==> reached(
                    top,
                    p,
                    Kind::Dir,
                    show_hidden,
                ))
        }),
{
    let none = Seq::<Seq<u8>>::empty();
    let scan = scan_entries(empty_scan(), none, top, show_hidden);
    scan_finds_every_file(top, show_hidden);
    assert forall|p: Path| tree_files(none, top, show_hidden).contains(p) <==> #[trigger] reached(
        top,
        p,
        Kind::File,
        show_hidden,
    ) by {
        lemma_tree_and_ways(top, show_hidden, p);
    }
    assert forall|p: Path| tree_dirs(none, top, show_hidden).contains(p) <==> #[trigger] reached(
        top,
        p,
        Kind::Dir,
        show_hidden,
    ) by {
        lemma_tree_and_ways(top, show_hidden, p);
    }
    assert forall|p: Path| p.len() > 0 implies (#[trigger] all_dirs(scan.tagdirs).contains(p)
        <==> reached(top, p, Kind::Dir, show_hidden)) by {
        if tree_dirs(none, top, show_hidden).contains(p) {
            assert(dir_known(scan.tagdirs, p));
        }
    }
}

proof fn lemma_tree_and_ways(top: Seq<Found>, show_hidden: bool, p: Path)
    ensures
        tree_files(Seq::empty(), top, show_hidden).contains(p) <==> reached(
            top,
            p,
            Kind::File,
            show_hidden,
        ),
        tree_dirs(Seq::empty(), top, show_hidden).contains(p) <==> reached(
            top,
            p,
            Kind::Dir,
            show_hidden,
        ),
{
    let none = Seq::<Seq<u8>>::empty();
    lemma_tree_reached(none, top, show_hidden, p);
    assert(p.skip(0) =~= p);
    if reached(top, p, Kind::File, show_hidden) {
        let way = choose|way: Seq<Found>| #[trigger]
            is_way(top, way) && way_path(way) == p && way.last().target == Some(Kind::File)
                && in_sight(way, show_hidden);
        lemma_way_found(none, top, show_hidden, way);
        assert(none + way_path(way) =~= p);
    }
    if reached(top, p, Kind::Dir, show_hidden) {
        let way = choose|way: Seq<Found>| #[trigger]
            is_way(top, way) && way_path(way) == p && way.last().target == Some(Kind::Dir)
                && in_sight(way, show_hidden);
        lemma_way_found(none, top, show_hidden, way);
        assert(none + way_path(way) =~= p);
    }
}

/// An entry is left out for its name exactly if hidden names are not shown and its
/// text begins with a dot.
pub proof fn only_dots_hide_names(name: Seq<u8>, show_hidden: bool)
    ensures
        shown(name, true),
        shown(name, false) <==> !(text_of(name).len() > 0 && text_of(name)[0] == '.'),
        shown(name, show_hidden) <==> show_hidden || text_of(name).len() == 0 || text_of(name)[0]
            != '.',
{
}

} // verus!
