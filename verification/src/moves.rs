//! Noting that directories of the source tree were moved.
use vstd::prelude::*;

use crate::names::{Name, NameMap, NameSet, Path, PathSet, TagMap};
use crate::path::{leads_to, relocated, FsPath};
use crate::rename_tag::pairs;
use crate::scanner::{
    add_all, add_to_each, dir_path_to_tags, file_path_to_tags, touch_all, touch_each, FileEntry,
    FileView,
};
use crate::sorted_map::{added, set_of, SortedMap};
use crate::sorted_set::lemma_take_set;
use crate::state::{
    has_tag, listed_by_tags, moved_entry, moved_key, moved_tagdirs, moves_into, FsState,
};

verus! {

/// Moving one more directory of a set of tags.
proof fn lemma_moved_step(
    m: Map<Set<Name>, Set<Path>>,
    n: Map<Set<Name>, Set<Path>>,
    k: Set<Name>,
    p: Path,
    a: Path,
    b: Path,
)
    requires
        n == added(m, k, p),
    ensures
        moved_tagdirs(n, a, b) == added(
            moved_tagdirs(m, a, b),
            moved_key(k, p, a, b),
            relocated(p, a, b),
        ),
{
    let x = moved_tagdirs(n, a, b);
    let y = moved_tagdirs(m, a, b);
    let t0 = moved_key(k, p, a, b);
    let q0 = relocated(p, a, b);
    let z = added(y, t0, q0);
    assert(n.contains_key(k) && n[k].contains(p));
    assert(moves_into(n, k, p, a, b, t0, q0));
    assert forall|j: Set<Name>, r: Path, t: Set<Name>, q: Path| #[trigger]
        moves_into(n, j, r, a, b, t, q) implies moves_into(m, j, r, a, b, t, q) || (t == t0 && q
        == q0) by {
        if !(j == k && r == p) {
            assert(m.contains_key(j) && m[j].contains(r));
        }
    }
    assert forall|j: Set<Name>, r: Path, t: Set<Name>, q: Path| #[trigger]
        moves_into(m, j, r, a, b, t, q) implies moves_into(n, j, r, a, b, t, q) by {}
    assert forall|t: Set<Name>| #[trigger] x.contains_key(t) == z.contains_key(t) by {
        if x.contains_key(t) {
            let (j, r, q) = choose|j: Set<Name>, r: Path, q: Path| #[trigger]
                moves_into(n, j, r, a, b, t, q);
            assert(moves_into(m, j, r, a, b, t, q) || t == t0);
        }
        if y.contains_key(t) {
            let (j, r, q) = choose|j: Set<Name>, r: Path, q: Path| #[trigger]
                moves_into(m, j, r, a, b, t, q);
            assert(moves_into(n, j, r, a, b, t, q));
        }
    }
    assert forall|t: Set<Name>| #[trigger] x.contains_key(t) implies x[t] == z[t] by {
        assert forall|q: Path| #[trigger] x[t].contains(q) == z[t].contains(q) by {
            if x[t].contains(q) {
                let (j, r) = choose|j: Set<Name>, r: Path| #[trigger]
                    moves_into(n, j, r, a, b, t, q);
                if moves_into(m, j, r, a, b, t, q) {
                    assert(y.contains_key(t) && y[t].contains(q));
                }
            }
            if z[t].contains(q) && !(t == t0 && q == q0) {
                assert(y.contains_key(t) && y[t].contains(q));
                let (j, r) = choose|j: Set<Name>, r: Path| #[trigger]
                    moves_into(m, j, r, a, b, t, q);
                assert(moves_into(n, j, r, a, b, t, q));
            }
        }
        assert(x[t] =~= z[t]);
    }
    assert(x =~= z);
}

/// `p` is a directory of the tags `k`.
spec fn holds(m: Map<Set<Name>, Set<Path>>, k: Set<Name>, p: Path) -> bool {
    m.contains_key(k) && m[k].contains(p)
}

/// Where the directories are the same, so are the moved ones.
proof fn lemma_moved_none(
    m: Map<Set<Name>, Set<Path>>,
    n: Map<Set<Name>, Set<Path>>,
    a: Path,
    b: Path,
)
    requires
        forall|k: Set<Name>, p: Path| #[trigger] holds(m, k, p) == holds(n, k, p),
    ensures
        moved_tagdirs(m, a, b) == moved_tagdirs(n, a, b),
{
    assert forall|k: Set<Name>, p: Path, t: Set<Name>, q: Path| #[trigger]
        moves_into(m, k, p, a, b, t, q) == #[trigger] moves_into(n, k, p, a, b, t, q) by {
        assert(holds(m, k, p) == holds(n, k, p));
    }
    let x = moved_tagdirs(m, a, b);
    let y = moved_tagdirs(n, a, b);
    assert forall|t: Set<Name>| #[trigger] x.contains_key(t) == y.contains_key(t) by {
        if x.contains_key(t) {
            let (k, p, q) = choose|k: Set<Name>, p: Path, q: Path| #[trigger]
                moves_into(m, k, p, a, b, t, q);
            assert(moves_into(n, k, p, a, b, t, q));
        }
        if y.contains_key(t) {
            let (k, p, q) = choose|k: Set<Name>, p: Path, q: Path| #[trigger]
                moves_into(n, k, p, a, b, t, q);
            assert(moves_into(m, k, p, a, b, t, q));
        }
    }
    assert forall|t: Set<Name>| #[trigger] x.contains_key(t) implies x[t] == y[t] by {
        assert forall|q: Path| #[trigger] x[t].contains(q) == y[t].contains(q) by {
            if x[t].contains(q) {
                let (k, p) = choose|k: Set<Name>, p: Path| #[trigger]
                    moves_into(m, k, p, a, b, t, q);
                assert(moves_into(n, k, p, a, b, t, q));
            }
            if y[t].contains(q) {
                let (k, p) = choose|k: Set<Name>, p: Path| #[trigger]
                    moves_into(n, k, p, a, b, t, q);
                assert(moves_into(m, k, p, a, b, t, q));
            }
        }
        assert(x[t] =~= y[t]);
    }
    assert(x =~= y);
}

/// `m` with more paths for `k`.
spec fn with_paths(m: Map<Set<Name>, Set<Path>>, k: Set<Name>, paths: Set<Path>) -> Map<
    Set<Name>,
    Set<Path>,
> {
    m.insert(k, set_of(m, k).union(paths))
}

/// Moves the directories of one more set of tags.
fn move_paths(
    into: &mut TagMap<PathSet>,
    key: &NameSet,
    paths: &PathSet,
    from: &FsPath,
    to: &FsPath,
    Ghost(m): Ghost<Map<Set<Name>, Set<Path>>>,
)
    requires
        old(into)@ == moved_tagdirs(m, from@, to@),
    ensures
        final(into)@ == moved_tagdirs(with_paths(m, key@, paths@), from@, to@),
{
    let n = paths.len();
    let ghost q = paths.seq();
    let mut i: usize = 0;
    proof {
        assert(q.take(0).to_set() =~= Set::<Path>::empty());
        lemma_moved_none(m, with_paths(m, key@, q.take(0).to_set()), from@, to@);
    }
    while i < n
        invariant
            i <= n,
            n == q.len(),
            q == paths.seq(),
            into@ == moved_tagdirs(
                with_paths(m, key@, q.take(i as int).to_set()),
                from@,
                to@,
            ),
        decreases n - i,
    {
        let path = paths.at(i);
        let moved = path.relocate(from, to);
        let ghost was = with_paths(m, key@, q.take(i as int).to_set());
        if from.leads_to(path) {
            let tags = dir_path_to_tags(&moved);
            into.add(&tags, moved);
        } else {
            into.add(key, moved);
        }
        proof {
            lemma_take_set(q, i as int);
            let now = with_paths(m, key@, q.take(i + 1).to_set());
            assert(now =~= added(was, key@, q[i as int])) by {
                assert(now[key@] =~= added(was, key@, q[i as int])[key@]);
            }
            lemma_moved_step(was, now, key@, q[i as int], from@, to@);
        }
        i += 1;
    }
    assert(q.take(n as int) =~= q);
}

impl FsState {
    /// Notes that the directory `from` was moved to `to`.
    pub fn record_moved_dir(&mut self, from: &FsPath, to: &FsPath)
        ensures
            final(self)@ == old(self)@.with_moved_dir(from@, to@),
    {
        self.move_files(from, to);
        self.move_tagdirs(from, to);
        self.list_by_tags();
    }

    /// Notes that the first `n` directories of a list were moved, one after the
    /// other.
    pub fn record_moved_dirs(&mut self, list: &Vec<(FsPath, FsPath)>, n: usize)
        requires
            n <= list@.len(),
        ensures
            final(self)@ == old(self)@.with_moved_dirs(pairs(list@).take(n as int)),
    {
        let ghost moves = pairs(list@);
        let mut i: usize = 0;
        assert(moves.take(0) =~= Seq::<(Path, Path)>::empty());
        while i < n
            invariant
                i <= n <= list@.len(),
                moves == pairs(list@),
                self@ == old(self)@.with_moved_dirs(moves.take(i as int)),
            decreases n - i,
        {
            assert(moves.take(i + 1).drop_last() =~= moves.take(i as int));
            assert(moves.take(i + 1).last() == moves[i as int]);
            self.record_moved_dir(&list[i].0, &list[i].1);
            i += 1;
        }
    }

    fn move_files(&mut self, from: &FsPath, to: &FsPath)
        ensures
            final(self).tagdirs@ == old(self).tagdirs@,
            final(self).by_tags@ == old(self).by_tags@,
            final(self).inode_table@ == old(self).inode_table@,
            final(self).files@ == old(self).files@.map_values(
                |f: FileView| moved_entry(f, from@, to@),
            ),
    {
        let n = self.files.len();
        let ghost m = self.files@;
        let ghost keys = self.files.keys();
        let ghost vals = self.files.vals();
        let ghost f = |f: FileView| moved_entry(f, from@, to@);
        let mut fresh: NameMap<FileEntry> = SortedMap::new();
        let mut i: usize = 0;
        assert(fresh@ =~= m.restrict(keys.take(0).to_set()).map_values(f));
        while i < n
            invariant
                i <= n,
                n == keys.len(),
                keys == self.files.keys(),
                vals == self.files.vals(),
                m == self.files@,
                f == (|f: FileView| moved_entry(f, from@, to@)),
                forall|j: int|
                    0 <= j < n ==> m.contains_key(#[trigger] keys[j]) && m[keys[j]] == vals[j],
                *self == *old(self),
                fresh@ == m.restrict(keys.take(i as int).to_set()).map_values(f),
            decreases n - i,
        {
            let entry = self.files.value_at(i);
            let ffn = entry.ffn.relocate(from, to);
            let tags = if from.leads_to(&entry.ffn) {
                file_path_to_tags(&ffn)
            } else {
                entry.tags.dup()
            };
            let moved = FileEntry { ffn, tags };
            assert(moved@ == f(vals[i as int]));
            fresh.insert(self.files.key_at(i).clone(), moved);
            proof {
                lemma_take_set(keys, i as int);
            }
            i += 1;
            assert(fresh@ =~= m.restrict(keys.take(i as int).to_set()).map_values(f));
        }
        proof {
            assert(keys.take(n as int) =~= keys);
            assert(m.restrict(keys.to_set()) =~= m);
        }
        self.files = fresh;
    }

    fn move_tagdirs(&mut self, from: &FsPath, to: &FsPath)
        ensures
            final(self).files@ == old(self).files@,
            final(self).by_tags@ == old(self).by_tags@,
            final(self).inode_table@ == old(self).inode_table@,
            final(self).tagdirs@ == moved_tagdirs(old(self).tagdirs@, from@, to@),
    {
        let n = self.tagdirs.len();
        let ghost m = self.tagdirs@;
        let ghost keys = self.tagdirs.keys();
        let ghost vals = self.tagdirs.vals();
        let mut fresh: TagMap<PathSet> = SortedMap::new();
        let mut i: usize = 0;
        proof {
            let none = m.restrict(keys.take(0).to_set());
            assert(fresh@ =~= moved_tagdirs(none, from@, to@));
        }
        while i < n
            invariant
                i <= n,
                n == keys.len(),
                keys == self.tagdirs.keys(),
                keys.no_duplicates(),
                vals == self.tagdirs.vals(),
                m == self.tagdirs@,
                forall|j: int|
                    0 <= j < n ==> m.contains_key(#[trigger] keys[j]) && m[keys[j]] == vals[j],
                *self == *old(self),
                fresh@ == moved_tagdirs(m.restrict(keys.take(i as int).to_set()), from@, to@),
            decreases n - i,
        {
            let ghost seen = keys.take(i as int).to_set();
            let key = self.tagdirs.key_at(i);
            let paths = self.tagdirs.value_at(i);
            move_paths(&mut fresh, key, paths, from, to, Ghost(m.restrict(seen)));
            proof {
                lemma_take_set(keys, i as int);
                assert(!seen.contains(keys[i as int])) by {
                    if seen.contains(keys[i as int]) {
                        let j = choose|j: int|
                            0 <= j < i && keys.take(i as int)[j] == keys[i as int];
                        assert(keys[j] == keys[i as int]);
                    }
                }
                let now = m.restrict(keys.take(i + 1).to_set());
                assert(now =~= with_paths(m.restrict(seen), keys[i as int], vals[i as int])) by {
                    assert(set_of(m.restrict(seen), keys[i as int]).union(vals[i as int])
                        =~= vals[i as int]);
                }
            }
            i += 1;
        }
        proof {
            assert(keys.take(n as int) =~= keys);
            assert(m.restrict(keys.to_set()) =~= m);
        }
        self.tagdirs = fresh;
    }

    /// Makes the sets of basenames anew from the files.
    fn list_by_tags(&mut self)
        ensures
            final(self).files@ == old(self).files@,
            final(self).tagdirs@ == old(self).tagdirs@,
            final(self).inode_table@ == old(self).inode_table@,
            final(self).by_tags@ == listed_by_tags(
                old(self).by_tags@.dom(),
                old(self).files@,
                old(self).tagdirs@,
            ),
    {
        let mut fresh: NameMap<NameSet> = SortedMap::new();
        let known = self.by_tags.key_set();
        touch_each(&mut fresh, &known);
        let n = self.tagdirs.len();
        let ghost dirs = self.tagdirs@;
        let ghost keys = self.tagdirs.keys();
        let ghost none = Map::<Name, FileView>::empty();
        let mut i: usize = 0;
        proof {
            let want = listed_by_tags(known@, none, dirs.restrict(keys.take(0).to_set()));
            assert forall|t: Name| #[trigger] want.contains_key(t) implies want[t] == fresh@[t] by {
                assert(want[t] =~= Set::<Name>::empty());
            }
            assert(fresh@ =~= want);
        }
        while i < n
            invariant
                i <= n,
                n == keys.len(),
                keys == self.tagdirs.keys(),
                dirs == self.tagdirs@,
                forall|j: int| 0 <= j < n ==> dirs.contains_key(#[trigger] keys[j]),
                *self == *old(self),
                none == Map::<Name, FileView>::empty(),
                fresh@ == listed_by_tags(
                    known@,
                    none,
                    dirs.restrict(keys.take(i as int).to_set()),
                ),
            decreases n - i,
        {
            touch_each(&mut fresh, self.tagdirs.key_at(i));
            proof {
                lemma_take_set(keys, i as int);
                lemma_listed_dir(known@, none, dirs, keys.take(i as int).to_set(), keys[i as int]);
            }
            i += 1;
        }
        proof {
            assert(keys.take(n as int) =~= keys);
            assert(dirs.restrict(keys.to_set()) =~= dirs);
        }
        let m = self.files.len();
        let ghost files = self.files@;
        let ghost names = self.files.keys();
        let ghost vals = self.files.vals();
        let mut j: usize = 0;
        assert(files.restrict(names.take(0).to_set()) =~= none);
        while j < m
            invariant
                j <= m,
                m == names.len(),
                names == self.files.keys(),
                vals == self.files.vals(),
                files == self.files@,
                dirs == self.tagdirs@,
                forall|k: int|
                    0 <= k < m ==> files.contains_key(#[trigger] names[k]) && files[names[k]]
                        == vals[k],
                *self == *old(self),
                fresh@ == listed_by_tags(
                    known@,
                    files.restrict(names.take(j as int).to_set()),
                    dirs,
                ),
            decreases m - j,
        {
            let entry = self.files.value_at(j);
            add_to_each(&mut fresh, &entry.tags, self.files.key_at(j));
            proof {
                lemma_take_set(names, j as int);
                lemma_listed_file(
                    known@,
                    files,
                    dirs,
                    names.take(j as int).to_set(),
                    names[j as int],
                );
            }
            j += 1;
        }
        proof {
            assert(names.take(m as int) =~= names);
            assert(files.restrict(names.to_set()) =~= files);
        }
        self.by_tags = fresh;
    }
}

proof fn lemma_listed_dir(
    known: Set<Name>,
    none: Map<Name, FileView>,
    dirs: Map<Set<Name>, Set<Path>>,
    seen: Set<Set<Name>>,
    k: Set<Name>,
)
    requires
        dirs.contains_key(k),
        none == Map::<Name, FileView>::empty(),
    ensures
        listed_by_tags(known, none, dirs.restrict(seen.insert(k))) == touch_all(
            listed_by_tags(known, none, dirs.restrict(seen)),
            k,
        ),
{
    let a = dirs.restrict(seen.insert(k));
    let b = dirs.restrict(seen);
    let x = listed_by_tags(known, none, a);
    let y = touch_all(listed_by_tags(known, none, b), k);
    assert forall|t: Name| #[trigger] x.contains_key(t) == y.contains_key(t) by {
        if x.contains_key(t) && !known.contains(t) {
            let j = choose|j: Set<Name>| #[trigger] a.contains_key(j) && j.contains(t);
            if j != k {
                assert(b.contains_key(j) && j.contains(t));
            }
        }
        if has_tag(known, none, b, t) && !known.contains(t) {
            let j = choose|j: Set<Name>| #[trigger] b.contains_key(j) && j.contains(t);
            assert(a.contains_key(j) && j.contains(t));
        }
        if k.contains(t) {
            assert(a.contains_key(k));
        }
    }
    assert forall|t: Name| #[trigger] x.contains_key(t) implies x[t] == y[t] by {
        assert(x[t] =~= Set::<Name>::empty());
        assert(y[t] =~= Set::<Name>::empty());
    }
    assert(x =~= y);
}

proof fn lemma_listed_file(
    known: Set<Name>,
    files: Map<Name, FileView>,
    dirs: Map<Set<Name>, Set<Path>>,
    seen: Set<Name>,
    n: Name,
)
    requires
        files.contains_key(n),
    ensures
        listed_by_tags(known, files.restrict(seen.insert(n)), dirs) == add_all(
            listed_by_tags(known, files.restrict(seen), dirs),
            files[n].tags,
            n,
        ),
{
    let a = files.restrict(seen.insert(n));
    let b = files.restrict(seen);
    let x = listed_by_tags(known, a, dirs);
    let was = listed_by_tags(known, b, dirs);
    let y = add_all(was, files[n].tags, n);
    assert forall|t: Name| #[trigger] x.contains_key(t) == y.contains_key(t) by {
        if has_tag(known, a, dirs, t) {
            if exists|j: Name| #[trigger] a.contains_key(j) && a[j].tags.contains(t) {
                let j = choose|j: Name| #[trigger] a.contains_key(j) && a[j].tags.contains(t);
                if j != n {
                    assert(b.contains_key(j) && b[j].tags.contains(t));
                }
            }
        }
        if has_tag(known, b, dirs, t) {
            if exists|j: Name| #[trigger] b.contains_key(j) && b[j].tags.contains(t) {
                let j = choose|j: Name| #[trigger] b.contains_key(j) && b[j].tags.contains(t);
                assert(a.contains_key(j) && a[j].tags.contains(t));
            }
        }
        if files[n].tags.contains(t) {
            assert(a.contains_key(n) && a[n].tags.contains(t));
        }
    }
    assert forall|t: Name| #[trigger] x.contains_key(t) implies x[t] == y[t] by {
        assert forall|j: Name| #[trigger] x[t].contains(j) == y[t].contains(j) by {
            assert(x[t].contains(j) == (a.contains_key(j) && a[j].tags.contains(t)));
            if was.contains_key(t) {
                assert(was[t].contains(j) == (b.contains_key(j) && b[j].tags.contains(t)));
            } else {
                assert(set_of(was, t) == Set::<Name>::empty());
                if b.contains_key(j) && b[j].tags.contains(t) {
                    assert(has_tag(known, b, dirs, t));
                }
            }
        }
        assert(x[t] =~= y[t]);
    }
    assert(x =~= y);
}

} // verus!
