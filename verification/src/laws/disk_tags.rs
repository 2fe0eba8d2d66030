//! Renaming a tag moves its directories, and with them what is inside.
use vstd::prelude::*;
use vstd::utf8::*;

use crate::laws::disk::{
    asked, contents_after, dirs_in_place, disk_ok, lemma_full, moved, on_disk, performs,
    step_on_disk, Item,
};
use crate::laws::filed::{
    all_dirs, filed, lemma_moved_dir_filed, lemma_point_plain, lemma_renamed_tag_filed,
};
use crate::laws::plain::{
    lemma_encode_plain, lemma_plain_dir, lemma_relocated, lemma_replaced, lemma_replaced_above,
    plain, plain_path,
};
use crate::laws::scanned::dirs_known;
use crate::names::{Name, Path};
use crate::ops::{found, Reply, StepView, TaskView};
use crate::path::{is_name, leads_to, relocated};
use crate::rename_tag::deep_first;
use crate::scanner::{dir_of, name_tags};
use crate::state::{
    clashes, is_rename_plan, moved_entry, moved_key, moved_tagdirs, moves_into, rename_point,
    renamed_dir, renamed_entry, renamed_tags, replaced, replaced_above, spelled, tagged_dir, FsView,
};
use crate::tagfs::TagView;
use crate::text::text_of;

verus! {

/// A directory whose own name spells the tag, and its new path.
pub open spec fn point_ok(x: (Path, Path), old: Name, new: Name) -> bool {
    &&& plain_path(x.0)
    &&& x.0.len() > 0
    &&& text_of(x.0.last()) == old
    &&& x.1 == x.0.drop_last().push(encode_utf8(new))
}

/// A directory is to be moved by the plan.
pub open spec fn in_plan(plan: Seq<(Path, Path)>, p: Path) -> bool {
    exists|i: int| 0 <= i < plan.len() && (#[trigger] plan[i]).0 == p
}

/// There is a known directory at `p` or below it.
pub open spec fn known_below(m: Map<Set<Name>, Set<Path>>, p: Path) -> bool {
    exists|q: Path| #[trigger] all_dirs(m).contains(q) && leads_to(p, q)
}

/// The plan moves exactly the directories whose own name spells the tag, deep ones
/// first, and no two of them to one place.
pub open spec fn ready(
    m: Map<Set<Name>, Set<Path>>,
    old: Name,
    new: Name,
    plan: Seq<(Path, Path)>,
) -> bool {
    &&& old != new
    &&& plain(new)
    &&& forall|i: int| 0 <= i < plan.len() ==> point_ok(#[trigger] plan[i], old, new)
    &&& !clashes(plan)
    &&& deep_first(plan)
    &&& forall|i: int| 0 <= i < plan.len() ==> known_below(m, (#[trigger] plan[i]).0)
    &&& forall|p: Path, i: int|
        #![trigger all_dirs(m).contains(p), spelled(p, old, i)]
        all_dirs(m).contains(p) && spelled(p, old, i) ==> in_plan(plan, p.take(i + 1))
}

/// Nothing is where the first directories of the plan go.
pub open spec fn places_free(
    d: Map<Path, Item>,
    root: Path,
    plan: Seq<(Path, Path)>,
    n: int,
) -> bool {
    forall|i: int| 0 <= i < n ==> !d.contains_key(root + (#[trigger] plan[i]).1)
}

/// Renaming the tag gives the same places in both states.
pub open spec fn alike_once_renamed(s: FsView, f: FsView, old: Name, new: Name) -> bool {
    &&& f.files.dom() == s.files.dom()
    &&& forall|n: Name| #[trigger]
        s.files.contains_key(n) ==> f.files[n].ffn.len() > 0 && f.files[n].ffn.last()
            == s.files[n].ffn.last() && replaced(f.files[n].ffn.drop_last(), old, new) == replaced(
            s.files[n].ffn.drop_last(),
            old,
            new,
        )
    &&& forall|p: Path| #[trigger]
        all_dirs(s.tagdirs).contains(p) ==> has_alike(f.tagdirs, p, old, new)
}

/// A known directory gets the same place as `p` when the tag is renamed.
pub open spec fn has_alike(m: Map<Set<Name>, Set<Path>>, p: Path, old: Name, new: Name) -> bool {
    exists|q: Path| #[trigger]
        all_dirs(m).contains(q) && replaced(q, old, new) == replaced(p, old, new)
}

/// What a task that renames a tag says of the disk is so. While directories are
/// moved, the disk is as the index says with the moves noted that were made.
pub open spec fn tag_on_disk(
    d: Map<Path, Item>,
    fs: TagView,
    task: TaskView,
    contents: Map<Name, int>,
) -> bool {
    match task {
        TaskView::TagLookOld { old, new, plan, at } => on_disk(d, fs, contents) && ready(
            fs.state.tagdirs,
            old,
            new,
            plan,
        ) && places_free(d, fs.root, plan, at),
        TaskView::TagLookNew { old, new, plan, at } => on_disk(d, fs, contents) && ready(
            fs.state.tagdirs,
            old,
            new,
            plan,
        ) && places_free(d, fs.root, plan, at),
        TaskView::TagMove { old, new, plan, at } => partly_moved(
            d,
            fs,
            old,
            new,
            plan,
            at,
            contents,
        ),
        _ => false,
    }
}

/// The first directories of a plan were moved, and the others can be.
pub open spec fn partly_moved(
    d: Map<Path, Item>,
    fs: TagView,
    old: Name,
    new: Name,
    plan: Seq<(Path, Path)>,
    at: int,
    contents: Map<Name, int>,
) -> bool {
    let f = fs.state.with_moved_dirs(plan.take(at));
    let rest = plan.skip(at);
    &&& filed(fs.state)
    &&& dirs_known(fs.state.files, fs.state.tagdirs)
    &&& on_disk(d, fs.with(f), contents)
    &&& ready(f.tagdirs, old, new, rest)
    &&& places_free(d, fs.root, rest, rest.len() as int)
    &&& alike_once_renamed(fs.state, f, old, new)
}

proof fn lemma_leads_below(root: Path, a: Path, b: Path)
    ensures
        leads_to(root + a, root + b) == leads_to(a, b),
{
    let n = root.len() as int;
    if leads_to(a, b) {
        assert((root + b).take((root + a).len() as int) =~= root + b.take(a.len() as int));
    }
    if leads_to(root + a, root + b) {
        assert(b.take(a.len() as int) =~= (root + b).take((root + a).len() as int).skip(n));
        assert((root + a).skip(n) =~= a);
    }
}

/// What is on the disk has everything that leads to it on the disk.
proof fn lemma_leads_on_disk(d: Map<Path, Item>, p: Path, q: Path)
    requires
        disk_ok(d),
        d.contains_key(q),
        leads_to(p, q),
        p.len() > 0,
    ensures
        d.contains_key(p),
        p != q ==> d[p] == Item::Dir,
{
    if p.len() < q.len() {
        assert(d.contains_key(q.take(p.len() as int)));
    } else {
        assert(q.take(p.len() as int) =~= q);
    }
}

/// A known directory is on the disk.
proof fn lemma_known_on_disk(d: Map<Path, Item>, root: Path, m: Map<Set<Name>, Set<Path>>, p: Path)
    requires
        dirs_in_place(d, root, m),
        all_dirs(m).contains(p),
    ensures
        d.contains_key(root + p),
        d[root + p] == Item::Dir,
{
    let k = choose|k: Set<Name>| #[trigger] m.contains_key(k) && m[k].contains(p);
    assert(m[k].contains(p));
}

/// A directory of the plan is on the disk.
proof fn lemma_point_on_disk(
    d: Map<Path, Item>,
    root: Path,
    m: Map<Set<Name>, Set<Path>>,
    p: Path,
)
    requires
        disk_ok(d),
        dirs_in_place(d, root, m),
        known_below(m, p),
        p.len() > 0,
    ensures
        d.contains_key(root + p),
        d[root + p] == Item::Dir,
{
    let q = choose|q: Path| #[trigger] all_dirs(m).contains(q) && leads_to(p, q);
    lemma_known_on_disk(d, root, m, q);
    lemma_leads_below(root, p, q);
    lemma_leads_on_disk(d, root + p, root + q);
}

proof fn lemma_point_places(x: (Path, Path), old: Name, new: Name)
    requires
        point_ok(x, old, new),
        plain(new),
    ensures
        plain_path(x.1),
        x.1.len() == x.0.len(),
{
    lemma_encode_plain(new);
    assert forall|i: int| 0 <= i < x.1.len() implies is_name(#[trigger] x.1[i]) && plain(
        text_of(x.1[i]),
    ) by {
        if i < x.0.len() - 1 {
            assert(x.1[i] == x.0[i]);
        }
    }
}

/// What is at `p` on the disk is at its new place after a directory was moved.
proof fn lemma_moved_path(d: Map<Path, Item>, root: Path, a: Path, b: Path, p: Path)
    requires
        disk_ok(d),
        plain_path(p),
        plain_path(b),
        a.len() > 0,
        b.len() > 0,
        !d.contains_key(root + b),
        d.contains_key(root + p),
    ensures
        moved(d, root + a, root + b).contains_key(root + relocated(p, a, b)),
        moved(d, root + a, root + b)[root + relocated(p, a, b)] == d[root + p],
        !leads_to(b, p),
{
    let q = relocated(p, a, b);
    lemma_leads_below(root, b, p);
    if leads_to(b, p) {
        lemma_leads_on_disk(d, root + b, root + p);
    }
    if leads_to(a, p) {
        lemma_relocated(p, a, b);
        let rest = p.skip(a.len() as int);
        assert((b + rest).take(b.len() as int) =~= b);
        lemma_leads_below(root, b, q);
        assert((root + q).skip((root + b).len() as int) =~= rest);
        assert(p =~= p.take(a.len() as int) + rest);
        assert((root + a) + rest =~= root + p);
    } else {
        lemma_leads_below(root, a, p);
    }
}

/// Two things on the disk are not moved to one place.
proof fn lemma_moved_apart(a: Path, b: Path, p: Path, q: Path)
    requires
        plain_path(p),
        plain_path(q),
        plain_path(b),
        b.len() > 0,
        !leads_to(b, p),
        !leads_to(b, q),
        relocated(p, a, b) == relocated(q, a, b),
    ensures
        p == q,
{
    if leads_to(a, p) {
        lemma_relocated(p, a, b);
        assert((b + p.skip(a.len() as int)).take(b.len() as int) =~= b);
        assert((b + p.skip(a.len() as int)).skip(b.len() as int) =~= p.skip(a.len() as int));
        assert(p =~= p.take(a.len() as int) + p.skip(a.len() as int));
    }
    if leads_to(a, q) {
        lemma_relocated(q, a, b);
        assert((b + q.skip(a.len() as int)).take(b.len() as int) =~= b);
        assert((b + q.skip(a.len() as int)).skip(b.len() as int) =~= q.skip(a.len() as int));
        assert(q =~= q.take(a.len() as int) + q.skip(a.len() as int));
    }
}

/// The directories that are known after a move are the old ones in their new
/// places.
proof fn lemma_moved_dirs_known(m: Map<Set<Name>, Set<Path>>, a: Path, b: Path)
    ensures
        forall|p: Path| #[trigger]
            all_dirs(m).contains(p) ==> all_dirs(moved_tagdirs(m, a, b)).contains(
                relocated(p, a, b),
            ),
        forall|q: Path| #[trigger]
            all_dirs(moved_tagdirs(m, a, b)).contains(q) ==> exists|p: Path| #[trigger]
                all_dirs(m).contains(p) && relocated(p, a, b) == q,
{
    let n = moved_tagdirs(m, a, b);
    assert forall|p: Path| #[trigger] all_dirs(m).contains(p) implies all_dirs(n).contains(
        relocated(p, a, b),
    ) by {
        let k = choose|k: Set<Name>| #[trigger] m.contains_key(k) && m[k].contains(p);
        let t = moved_key(k, p, a, b);
        assert(moves_into(m, k, p, a, b, t, relocated(p, a, b)));
        assert(n.contains_key(t) && n[t].contains(relocated(p, a, b)));
    }
    assert forall|q: Path| #[trigger] all_dirs(n).contains(q) implies exists|p: Path| #[trigger]
        all_dirs(m).contains(p) && relocated(p, a, b) == q by {
        let t = choose|t: Set<Name>| #[trigger] n.contains_key(t) && n[t].contains(q);
        let (k, p) = choose|k: Set<Name>, p: Path| #[trigger] moves_into(m, k, p, a, b, t, q);
        assert(m.contains_key(k) && m[k].contains(p));
        assert(all_dirs(m).contains(p));
    }
}

proof fn lemma_known_plain(s: FsView, p: Path)
    requires
        filed(s),
        all_dirs(s.tagdirs).contains(p),
    ensures
        plain_path(p),
        s.tagdirs.contains_key(name_tags(p)),
        s.tagdirs[name_tags(p)].contains(p),
{
    let k = choose|k: Set<Name>| #[trigger] s.tagdirs.contains_key(k) && s.tagdirs[k].contains(p);
    assert(s.tagdirs[k].contains(p));
}

/// The place of a file after its directory was moved is in the new place of the
/// directory.
proof fn lemma_moved_above(p: Path, a: Path, b: Path)
    requires
        plain_path(p),
        p.len() > 0,
        plain_path(b),
        b.len() > 0,
        p != a,
    ensures
        leads_to(a, p) == leads_to(a, p.drop_last()),
        relocated(p, a, b).len() > 0,
        relocated(p, a, b).drop_last() == relocated(p.drop_last(), a, b),
        relocated(p, a, b).last() == p.last(),
{
    let dir = p.drop_last();
    lemma_plain_dir(p);
    if leads_to(a, p) {
        if a.len() == p.len() {
            assert(p.take(a.len() as int) =~= p);
        }
        assert(dir.take(a.len() as int) =~= p.take(a.len() as int));
        lemma_relocated(p, a, b);
        lemma_relocated(dir, a, b);
        assert((b + p.skip(a.len() as int)).drop_last() =~= b + dir.skip(a.len() as int));
    } else if leads_to(a, dir) {
        assert(dir.take(a.len() as int) =~= p.take(a.len() as int));
    }
}

/// Once a directory was moved, the disk is as the index says with the move noted.
proof fn lemma_move_on_disk(
    d: Map<Path, Item>,
    fs: TagView,
    old: Name,
    new: Name,
    x: (Path, Path),
    contents: Map<Name, int>,
)
    requires
        disk_ok(d),
        on_disk(d, fs, contents),
        point_ok(x, old, new),
        plain(new),
        known_below(fs.state.tagdirs, x.0),
        !d.contains_key(fs.root + x.1),
    ensures
        on_disk(
            moved(d, fs.root + x.0, fs.root + x.1),
            fs.with(fs.state.with_moved_dir(x.0, x.1)),
            contents,
        ),
        forall|n: Name| #[trigger] fs.state.files.contains_key(n) ==> fs.state.files[n].ffn != x.0,
{
    let s = fs.state;
    let a = x.0;
    let b = x.1;
    let r = s.with_moved_dir(a, b);
    let after = moved(d, fs.root + a, fs.root + b);
    lemma_point_places(x, old, new);
    lemma_moved_dir_filed(s, a, b);
    lemma_point_on_disk(d, fs.root, s.tagdirs, a);
    assert forall|n: Name| #[trigger] s.files.contains_key(n) implies s.files[n].ffn != a
        && !leads_to(b, s.files[n].ffn) && after.contains_key(
        fs.root + relocated(s.files[n].ffn, a, b),
    ) && after[fs.root + relocated(s.files[n].ffn, a, b)] == Item::File(contents[n]) by {
        assert(d[fs.root + s.files[n].ffn] is File);
        lemma_moved_path(d, fs.root, a, b, s.files[n].ffn);
    }
    assert forall|n: Name| #[trigger] r.files.contains_key(n) implies contents.contains_key(n)
        && after.contains_key(fs.root + r.files[n].ffn) && after[fs.root + r.files[n].ffn]
        == Item::File(contents[n]) by {
        assert(s.files.contains_key(n));
        assert(r.files[n] == moved_entry(s.files[n], a, b));
    }
    assert forall|m: Name, n: Name|
        #![trigger r.files[m].ffn, r.files[n].ffn]
        r.files.contains_key(m) && r.files.contains_key(n) && r.files[m].ffn == r.files[n].ffn
        implies m == n by {
        assert(s.files.contains_key(m) && s.files.contains_key(n));
        assert(r.files[m] == moved_entry(s.files[m], a, b));
        assert(r.files[n] == moved_entry(s.files[n], a, b));
        lemma_moved_apart(a, b, s.files[m].ffn, s.files[n].ffn);
        assert(s.files[m].ffn == s.files[n].ffn);
    }
    assert forall|n: Name| #[trigger] r.files.contains_key(n) implies r.tagdirs.contains_key(
        r.files[n].tags,
    ) && r.tagdirs[r.files[n].tags].contains(dir_of(r.files[n].ffn)) by {
        assert(s.files.contains_key(n));
        let f = s.files[n];
        assert(r.files[n] == moved_entry(f, a, b));
        lemma_plain_dir(f.ffn);
        lemma_moved_above(f.ffn, a, b);
        let dir = f.ffn.drop_last();
        assert(s.tagdirs.contains_key(f.tags) && s.tagdirs[f.tags].contains(dir));
        if leads_to(a, f.ffn) {
            lemma_relocated(f.ffn, a, b);
        }
        lemma_plain_dir(r.files[n].ffn);
        let t = moved_key(f.tags, dir, a, b);
        assert(moves_into(s.tagdirs, f.tags, dir, a, b, t, relocated(dir, a, b)));
        assert(t == r.files[n].tags);
    }
    assert forall|t: Set<Name>, q: Path|
        #![trigger r.tagdirs[t].contains(q)]
        r.tagdirs.contains_key(t) && r.tagdirs[t].contains(q) implies after.contains_key(
        fs.root + q,
    ) && after[fs.root + q] == Item::Dir by {
        let (k, p) = choose|k: Set<Name>, p: Path| #[trigger]
            moves_into(s.tagdirs, k, p, a, b, t, q);
        assert(s.tagdirs[k].contains(p));
        lemma_moved_path(d, fs.root, a, b, p);
    }
    assert(!leads_to(fs.root + a, fs.root) && !leads_to(fs.root + b, fs.root));
}

/// The others can still be moved after the first directory of a plan was.
proof fn lemma_still_ready(
    d: Map<Path, Item>,
    root: Path,
    s: FsView,
    old: Name,
    new: Name,
    plan: Seq<(Path, Path)>,
)
    requires
        filed(s),
        ready(s.tagdirs, old, new, plan),
        places_free(d, root, plan, plan.len() as int),
        plan.len() > 0,
    ensures
        ({
            let x = plan[0];
            let rest = plan.drop_first();
            &&& ready(s.with_moved_dir(x.0, x.1).tagdirs, old, new, rest)
            &&& places_free(moved(d, root + x.0, root + x.1), root, rest, rest.len() as int)
        }),
{
    let x = plan[0];
    let a = x.0;
    let b = x.1;
    let rest = plan.drop_first();
    let m = s.tagdirs;
    let n = moved_tagdirs(m, a, b);
    let after = moved(d, root + a, root + b);
    assert(point_ok(x, old, new));
    lemma_point_places(x, old, new);
    lemma_encode_plain(new);
    lemma_moved_dirs_known(m, a, b);
    assert forall|i: int| 0 <= i < rest.len() implies #[trigger] rest[i] == plan[i + 1] && point_ok(
        rest[i],
        old,
        new,
    ) && rest[i].0.len() <= a.len() && rest[i].1 != b && rest[i].0 != a by {
        assert(point_ok(plan[i + 1], old, new));
        assert(plan[0].0.len() >= plan[i + 1].0.len());
        assert(plan[0].1 != plan[i + 1].1);
    }
    assert(!clashes(rest)) by {
        if clashes(rest) {
            let (i, j) = choose|i: int, j: int|
                0 <= i < j < rest.len() && (#[trigger] rest[i]).1 == (#[trigger] rest[j]).1;
            assert(plan[i + 1].1 == plan[j + 1].1);
        }
    }
    assert forall|i: int, j: int| 0 <= i < j < rest.len() implies #[trigger] rest[i].0.len()
        >= #[trigger] rest[j].0.len() by {
        assert(plan[i + 1].0.len() >= plan[j + 1].0.len());
    }
    assert forall|i: int| 0 <= i < rest.len() implies known_below(n, (#[trigger] rest[i]).0) by {
        let c = rest[i].0;
        assert(known_below(m, plan[i + 1].0));
        let p = choose|p: Path| #[trigger] all_dirs(m).contains(p) && leads_to(c, p);
        lemma_known_plain(s, p);
        let q = relocated(p, a, b);
        assert(all_dirs(n).contains(q));
        if leads_to(a, p) {
            lemma_relocated(p, a, b);
            let l = c.len() as int;
            if l == a.len() {
                assert(c == a);
            }
            assert(q.take(l) =~= p.take(l)) by {
                assert forall|j: int| 0 <= j < l implies q[j] == p[j] by {
                    assert(q[j] == a[j]);
                    assert(p.take(a.len() as int)[j] == p[j]);
                }
            }
        }
        assert(leads_to(c, q));
    }
    assert forall|q: Path, i: int|
        #![trigger all_dirs(n).contains(q), spelled(q, old, i)]
        all_dirs(n).contains(q) && spelled(q, old, i) implies in_plan(rest, q.take(i + 1)) by {
        let p = choose|p: Path| #[trigger] all_dirs(m).contains(p) && relocated(p, a, b) == q;
        lemma_known_plain(s, p);
        let l = a.len() as int;
        if leads_to(a, p) {
            lemma_relocated(p, a, b);
            if i < l - 1 {
                assert(q[i] == a[i]);
                assert(p.take(l)[i] == p[i]);
            } else if i == l - 1 {
                assert(q[i] == encode_utf8(new));
            } else {
                assert(q[i] == p[i]);
            }
            assert(spelled(p, old, i));
        }
        assert(in_plan(plan, p.take(i + 1)));
        let j = choose|j: int| 0 <= j < plan.len() && (#[trigger] plan[j]).0 == p.take(i + 1);
        if leads_to(a, p) {
            if i > l - 1 {
                if j > 0 {
                    assert(plan[0].0.len() >= plan[j].0.len());
                }
            } else {
                assert(q.take(i + 1) =~= p.take(i + 1)) by {
                    assert forall|k: int| 0 <= k < i + 1 implies q[k] == p[k] by {
                        assert(q[k] == a[k]);
                        assert(p.take(l)[k] == p[k]);
                    }
                }
            }
        } else if j == 0 {
            assert(leads_to(a, p));
        }
        assert(j > 0);
        assert(rest[j - 1].0 == q.take(i + 1));
    }
    assert forall|i: int| 0 <= i < rest.len() implies !after.contains_key(
        root + (#[trigger] rest[i]).1,
    ) by {
        lemma_point_places(rest[i], old, new);
        lemma_leads_below(root, b, rest[i].1);
        if leads_to(b, rest[i].1) {
            assert(rest[i].1.take(b.len() as int) =~= rest[i].1);
        }
        assert(!d.contains_key(root + plan[i + 1].1));
    }
}

/// A path spells the same once the tag is renamed, whether or not the directory
/// was moved.
proof fn lemma_replaced_alike(p: Path, x: (Path, Path), old: Name, new: Name)
    requires
        plain_path(p),
        point_ok(x, old, new),
        plain(new),
        old != new,
    ensures
        replaced(relocated(p, x.0, x.1), old, new) == replaced(p, old, new),
{
    if leads_to(x.0, p) {
        lemma_point_places(x, old, new);
        lemma_relocated(p, x.0, x.1);
        lemma_encode_plain(new);
        let q = relocated(p, x.0, x.1);
        lemma_replaced(p, old, new);
        lemma_replaced(q, old, new);
        let l = x.0.len() as int;
        let u = replaced(p, old, new);
        let v = replaced(q, old, new);
        assert forall|i: int| 0 <= i < p.len() implies u[i] == v[i] by {
            assert(u[i] == (if text_of(p[i]) == old { encode_utf8(new) } else { p[i] }));
            assert(v[i] == (if text_of(q[i]) == old { encode_utf8(new) } else { q[i] }));
            if i < l {
                assert(p.take(l)[i] == p[i]);
            }
            if i < l - 1 {
                assert(q[i] == x.0[i]);
            } else if i == l - 1 {
                assert(q[i] == encode_utf8(new));
            } else {
                assert(q[i] == p[i]);
            }
        }
        assert(u =~= v);
    }
}

/// One more directory is moved.
proof fn lemma_moved_on(
    d: Map<Path, Item>,
    fs: TagView,
    old: Name,
    new: Name,
    plan: Seq<(Path, Path)>,
    at: int,
    contents: Map<Name, int>,
)
    requires
        disk_ok(d),
        0 <= at < plan.len(),
        partly_moved(d, fs, old, new, plan, at, contents),
    ensures
        partly_moved(
            moved(d, fs.root + plan[at].0, fs.root + plan[at].1),
            fs,
            old,
            new,
            plan,
            at + 1,
            contents,
        ),
{
    let s = fs.state;
    let f = s.with_moved_dirs(plan.take(at));
    let rest = plan.skip(at);
    let x = plan[at];
    assert(rest[0] == x);
    assert(point_ok(x, old, new));
    assert(known_below(f.tagdirs, rest[0].0));
    assert(!d.contains_key(fs.root + rest[0].1));
    lemma_point_places(x, old, new);
    lemma_move_on_disk(d, fs.with(f), old, new, x, contents);
    lemma_still_ready(d, fs.root, f, old, new, rest);
    let g = f.with_moved_dir(x.0, x.1);
    assert(plan.take(at + 1).drop_last() =~= plan.take(at));
    assert(plan.take(at + 1).last() == x);
    assert(g == s.with_moved_dirs(plan.take(at + 1)));
    assert(plan.skip(at + 1) =~= rest.drop_first());
    assert forall|n: Name| #[trigger] s.files.contains_key(n) implies g.files[n].ffn.len() > 0
        && g.files[n].ffn.last() == s.files[n].ffn.last() && replaced(
        g.files[n].ffn.drop_last(),
        old,
        new,
    ) == replaced(s.files[n].ffn.drop_last(), old, new) by {
        assert(f.files.dom().contains(n));
        let p = f.files[n].ffn;
        assert(g.files[n] == moved_entry(f.files[n], x.0, x.1));
        lemma_moved_above(p, x.0, x.1);
        lemma_plain_dir(p);
        lemma_replaced_alike(p.drop_last(), x, old, new);
    }
    assert(g.files.dom() =~= s.files.dom());
    lemma_moved_dirs_known(f.tagdirs, x.0, x.1);
    assert forall|p: Path| #[trigger] all_dirs(s.tagdirs).contains(p) implies has_alike(
        g.tagdirs,
        p,
        old,
        new,
    ) by {
        assert(has_alike(f.tagdirs, p, old, new));
        let q = choose|q: Path| #[trigger]
            all_dirs(f.tagdirs).contains(q) && replaced(q, old, new) == replaced(p, old, new);
        lemma_known_plain(f, q);
        lemma_replaced_alike(q, x, old, new);
        assert(all_dirs(g.tagdirs).contains(relocated(q, x.0, x.1)));
    }
}

/// A known directory whose name is not to be changed any more stays as it is.
proof fn lemma_all_moved(s: FsView, old: Name, new: Name, p: Path)
    requires
        filed(s),
        ready(s.tagdirs, old, new, Seq::empty()),
        all_dirs(s.tagdirs).contains(p),
    ensures
        replaced(p, old, new) == p,
{
    lemma_known_plain(s, p);
    lemma_replaced(p, old, new);
    if name_tags(p).contains(old) {
        let i = choose|i: int| 0 <= i < p.len() && is_name(#[trigger] p[i]) && text_of(p[i]) == old;
        assert(spelled(p, old, i));
        assert(in_plan(Seq::empty(), p.take(i + 1)));
    }
}

/// The index with the tag renamed says what is on the disk.
proof fn lemma_tag_done(
    d: Map<Path, Item>,
    fs: TagView,
    old: Name,
    new: Name,
    plan: Seq<(Path, Path)>,
    contents: Map<Name, int>,
)
    requires
        partly_moved(d, fs, old, new, plan, plan.len() as int, contents),
    ensures
        on_disk(d, fs.with(fs.state.with_renamed_tag(old, new)), contents),
{
    let s = fs.state;
    let r = s.with_renamed_tag(old, new);
    let f = s.with_moved_dirs(plan.take(plan.len() as int));
    assert(plan.skip(plan.len() as int) =~= Seq::empty());
    lemma_renamed_tag_filed(s, old, new);
    assert forall|n: Name| #[trigger] s.files.contains_key(n) implies r.files[n].ffn
        == f.files[n].ffn by {
        assert(f.files.dom().contains(n));
        let p = s.files[n].ffn;
        let q = f.files[n].ffn;
        lemma_plain_dir(p);
        lemma_plain_dir(q);
        assert(f.tagdirs.contains_key(f.files[n].tags) && f.tagdirs[f.files[n].tags].contains(
            dir_of(q),
        ));
        assert(all_dirs(f.tagdirs).contains(q.drop_last()));
        lemma_all_moved(f, old, new, q.drop_last());
        assert(q =~= q.drop_last().push(q.last()));
        assert(p =~= p.drop_last().push(p.last()));
        assert(r.files[n] == renamed_entry(s.files[n], old, new));
        lemma_replaced_above(p, old, new);
        lemma_replaced(p.drop_last(), old, new);
    }
    assert forall|n: Name| #[trigger] r.files.contains_key(n) implies contents.contains_key(n)
        && d.contains_key(fs.root + r.files[n].ffn) && d[fs.root + r.files[n].ffn] == Item::File(
        contents[n],
    ) by {
        assert(s.files.contains_key(n));
        assert(f.files.dom().contains(n));
    }
    assert forall|m: Name, n: Name|
        #![trigger r.files[m].ffn, r.files[n].ffn]
        r.files.contains_key(m) && r.files.contains_key(n) && r.files[m].ffn == r.files[n].ffn
        implies m == n by {
        assert(s.files.contains_key(m) && s.files.contains_key(n));
        assert(f.files.dom().contains(m) && f.files.dom().contains(n));
        assert(f.files[m].ffn == f.files[n].ffn);
    }
    assert forall|n: Name| #[trigger] r.files.contains_key(n) implies r.tagdirs.contains_key(
        r.files[n].tags,
    ) && r.tagdirs[r.files[n].tags].contains(dir_of(r.files[n].ffn)) by {
        assert(s.files.contains_key(n));
        let e = s.files[n];
        let k = e.tags;
        let p = dir_of(e.ffn);
        assert(r.files[n] == renamed_entry(e, old, new));
        assert(s.tagdirs.contains_key(k) && s.tagdirs[k].contains(p));
        assert(renamed_tags(k, old, new) == r.files[n].tags);
        lemma_plain_dir(e.ffn);
        if k.contains(old) {
            lemma_replaced_above(e.ffn, old, new);
            let q = replaced_above(e.ffn, old, new);
            lemma_plain_dir(q);
            assert(q.drop_last() =~= replaced(p, old, new));
        }
    }
    assert forall|t: Set<Name>, q: Path|
        #![trigger r.tagdirs[t].contains(q)]
        r.tagdirs.contains_key(t) && r.tagdirs[t].contains(q) implies d.contains_key(fs.root + q)
        && d[fs.root + q] == Item::Dir by {
        let (k, p) = choose|k: Set<Name>, p: Path|
            #![trigger s.tagdirs.contains_key(k), s.tagdirs[k].contains(p)]
            s.tagdirs.contains_key(k) && renamed_tags(k, old, new) == t && s.tagdirs[k].contains(p)
                && q == (if k.contains(old) {
                replaced(p, old, new)
            } else {
                p
            });
        assert(s.tagdirs[k].contains(p));
        lemma_replaced(p, old, new);
        assert(q == replaced(p, old, new));
        assert(all_dirs(s.tagdirs).contains(p));
        assert(has_alike(f.tagdirs, p, old, new));
        let u = choose|u: Path| #[trigger]
            all_dirs(f.tagdirs).contains(u) && replaced(u, old, new) == replaced(p, old, new);
        lemma_all_moved(f, old, new, u);
        lemma_known_on_disk(d, fs.root, f.tagdirs, u);
    }
}

proof fn lemma_tag_move_next(
    d: Map<Path, Item>,
    fs: TagView,
    old: Name,
    new: Name,
    plan: Seq<(Path, Path)>,
    at: int,
    contents: Map<Name, int>,
)
    requires
        0 <= at <= plan.len(),
        partly_moved(d, fs, old, new, plan, at, contents),
    ensures
        step_on_disk(d, fs.tag_move_next(old, new, plan, at), contents),
{
    if at == plan.len() {
        lemma_tag_done(d, fs, old, new, plan, contents);
    }
}

proof fn lemma_tag_look_next(
    d: Map<Path, Item>,
    fs: TagView,
    old: Name,
    new: Name,
    plan: Seq<(Path, Path)>,
    at: int,
    contents: Map<Name, int>,
)
    requires
        0 <= at <= plan.len(),
        on_disk(d, fs, contents),
        ready(fs.state.tagdirs, old, new, plan),
        places_free(d, fs.root, plan, at),
    ensures
        step_on_disk(d, fs.tag_look_next(old, new, plan, at), contents),
{
    if at == plan.len() {
        let s = fs.state;
        assert(plan.take(0) =~= Seq::empty());
        assert(plan.skip(0) =~= plan);
        assert(s.with_moved_dirs(plan.take(0)) == s);
        assert(fs.with(s) == fs);
        assert(alike_once_renamed(s, s, old, new)) by {
            assert forall|n: Name| #[trigger] s.files.contains_key(n) implies s.files[n].ffn.len()
                > 0 by {}
            assert forall|p: Path| #[trigger] all_dirs(s.tagdirs).contains(p) implies has_alike(
                s.tagdirs,
                p,
                old,
                new,
            ) by {}
        }
        lemma_tag_move_next(d, fs, old, new, plan, 0, contents);
    }
}

/// A plan for the directories of a tag moves what it has to.
proof fn lemma_plan_ready(s: FsView, old: Name, new: Name, plan: Seq<(Path, Path)>)
    requires
        filed(s),
        old != new,
        plain(new),
        is_rename_plan(plan, s.tagdirs, old, new),
        !clashes(plan),
    ensures
        ready(s.tagdirs, old, new, plan),
{
    let m = s.tagdirs;
    assert forall|i: int| 0 <= i < plan.len() implies point_ok(#[trigger] plan[i], old, new)
        && known_below(m, plan[i].0) by {
        assert(plan.contains(plan[i]));
        let p = choose|p: Path| #[trigger]
            tagged_dir(m, old, p) && rename_point(p, old, new, plan[i]);
        let k = choose|k: Set<Name>| #[trigger]
            m.contains_key(k) && k.contains(old) && m[k].contains(p);
        assert(m[k].contains(p));
        assert(all_dirs(m).contains(p));
        let j = choose|j: int| #[trigger]
            spelled(p, old, j) && plan[i] == renamed_dir(p, j, new);
        lemma_point_plain(p, old, new, j);
        let q = p.take(j + 1);
        assert(q.last() == p[j]);
        assert(q.drop_last() =~= p.take(j));
        assert(leads_to(q, p));
    }
    assert forall|p: Path, i: int|
        #![trigger all_dirs(m).contains(p), spelled(p, old, i)]
        all_dirs(m).contains(p) && spelled(p, old, i) implies in_plan(plan, p.take(i + 1)) by {
        lemma_known_plain(s, p);
        let k = name_tags(p);
        assert(is_name(p[i]) && text_of(p[i]) == old);
        assert(m.contains_key(k) && k.contains(old) && m[k].contains(p));
        assert(tagged_dir(m, old, p));
        let x = renamed_dir(p, i, new);
        assert(rename_point(p, old, new, x));
        assert(plan.contains(x));
        let j = choose|j: int| 0 <= j < plan.len() && plan[j] == x;
        assert(plan[j].0 == p.take(i + 1));
    }
}

/// What the index says of the disk is so when the renaming of a tag starts.
pub(crate) proof fn lemma_tag_starts(
    d: Map<Path, Item>,
    fs: TagView,
    old: Name,
    new: Name,
    step: StepView,
    contents: Map<Name, int>,
)
    requires
        on_disk(d, fs, contents),
        plain(new),
        fs.starts_rename_tag(old, new, step),
    ensures
        step_on_disk(d, step, contents),
{
    let s = fs.state;
    let plan = choose|plan: Seq<(Path, Path)>| #[trigger]
        is_rename_plan(plan, s.tagdirs, old, new) && step == fs.rename_tag_step(old, new, plan);
    if old != new && !s.by_tags.contains_key(new) && !clashes(plan) {
        lemma_plan_ready(s, old, new, plan);
        lemma_tag_look_next(d, fs, old, new, plan, 0, contents);
    }
}

/// What the index says of the disk is so when the renaming of a tag goes on.
pub(crate) proof fn lemma_tag_goes_on(
    d: Map<Path, Item>,
    fs: TagView,
    task: TaskView,
    after: Map<Path, Item>,
    reply: Reply,
    contents: Map<Name, int>,
    new_contents: int,
)
    requires
        disk_ok(d),
        task.fits(fs.state),
        tag_on_disk(d, fs, task, contents),
        performs(d, asked(fs, task), after, reply, new_contents),
    ensures
        step_on_disk(
            after,
            fs.resumed(task, reply),
            contents_after(contents, task, reply, new_contents),
        ),
{
    match task {
        TaskView::TagLookOld { old, new, plan, at } => {
            assert(point_ok(plan[at], old, new));
            assert(known_below(fs.state.tagdirs, plan[at].0));
            lemma_full(fs, plan[at].0);
            lemma_point_on_disk(d, fs.root, fs.state.tagdirs, plan[at].0);
            assert(found(reply));
        },
        TaskView::TagLookNew { old, new, plan, at } => {
            assert(point_ok(plan[at], old, new));
            lemma_point_places(plan[at], old, new);
            lemma_full(fs, plan[at].1);
            if !found(reply) {
                assert(places_free(d, fs.root, plan, at + 1));
                lemma_tag_look_next(d, fs, old, new, plan, at + 1, contents);
            }
        },
        TaskView::TagMove { old, new, plan, at } => {
            assert(point_ok(plan.skip(at)[0], old, new));
            assert(plan.skip(at)[0] == plan[at]);
            lemma_point_places(plan[at], old, new);
            lemma_full(fs, plan[at].0);
            lemma_full(fs, plan[at].1);
            if reply is Ok {
                lemma_moved_on(d, fs, old, new, plan, at, contents);
                lemma_tag_move_next(after, fs, old, new, plan, at + 1, contents);
            }
        },
        _ => {},
    }
}

} // verus!
