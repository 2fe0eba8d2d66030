//! Renaming a tag: the directories to rename, and the state afterwards.
use vstd::prelude::*;

use crate::inode::InodeView;
use crate::names::{Name, NameMap, Path, PathSet, TagMap};
use crate::order::{Key, Order};
use crate::path::FsPath;
use crate::scanner::{FileEntry, FileView};
use crate::sorted_map::{set_of, SortedMap};
use crate::sorted_set::{lemma_take_set, SortedSet};
use crate::state::{
    clashes, given_up, is_rename_plan, rename_point, renamed_dir, renamed_entry, renamed_inodes,
    renamed_tagdirs, renamed_tags, replaced, spelled, tagged_dir, FsState,
};
use crate::text::{same_text, text};

verus! {

/// The paths of a set of tags after `old` was renamed to `new`.
pub open spec fn renamed_paths(k: Set<Name>, paths: Set<Path>, old: Name, new: Name) -> Set<Path> {
    if k.contains(old) {
        paths.map(|p: Path| replaced(p, old, new))
    } else {
        paths
    }
}

/// `m` with more paths for `t`.
pub open spec fn merged(m: Map<Set<Name>, Set<Path>>, t: Set<Name>, paths: Set<Path>) -> Map<
    Set<Name>,
    Set<Path>,
> {
    m.insert(t, set_of(m, t).union(paths))
}

/// Renaming one more set of tags.
proof fn lemma_renamed_step(
    m: Map<Set<Name>, Set<Path>>,
    seen: Set<Set<Name>>,
    k: Set<Name>,
    old: Name,
    new: Name,
)
    requires
        m.contains_key(k),
    ensures
        renamed_tagdirs(m.restrict(seen.insert(k)), old, new) == merged(
            renamed_tagdirs(m.restrict(seen), old, new),
            renamed_tags(k, old, new),
            renamed_paths(k, m[k], old, new),
        ),
{
    let a = m.restrict(seen.insert(k));
    let b = m.restrict(seen);
    let t = renamed_tags(k, old, new);
    let x = renamed_tagdirs(a, old, new);
    let y = renamed_tagdirs(b, old, new);
    let z = merged(y, t, renamed_paths(k, m[k], old, new));
    assert(a.contains_key(k));
    assert forall|s: Set<Name>| #[trigger] x.contains_key(s) == z.contains_key(s) by {
        if x.contains_key(s) {
            let j = choose|j: Set<Name>| #[trigger] a.contains_key(j) && renamed_tags(j, old, new) == s;
            if j != k {
                assert(b.contains_key(j));
            }
        }
        if y.contains_key(s) {
            let j = choose|j: Set<Name>| #[trigger] b.contains_key(j) && renamed_tags(j, old, new) == s;
            assert(a.contains_key(j));
        }
    }
    assert forall|s: Set<Name>| #[trigger] x.contains_key(s) implies x[s] == z[s] by {
        assert forall|q: Path| #[trigger] x[s].contains(q) == z[s].contains(q) by {
            if x[s].contains(q) {
                let (j, p) = choose|j: Set<Name>, p: Path|
                    #![trigger a.contains_key(j), a[j].contains(p)]
                    a.contains_key(j) && renamed_tags(j, old, new) == s && a[j].contains(p) && q == (
                    if j.contains(old) {
                        replaced(p, old, new)
                    } else {
                        p
                    });
                if j == k {
                    assert(renamed_paths(k, m[k], old, new).contains(q));
                } else {
                    assert(b.contains_key(j) && b[j].contains(p));
                    assert(y.contains_key(s));
                    assert(y[s].contains(q));
                }
            }
            if z[s].contains(q) {
                if y.contains_key(s) && y[s].contains(q) {
                    let (j, p) = choose|j: Set<Name>, p: Path|
                        #![trigger b.contains_key(j), b[j].contains(p)]
                        b.contains_key(j) && renamed_tags(j, old, new) == s && b[j].contains(p) && q
                            == (if j.contains(old) {
                            replaced(p, old, new)
                        } else {
                            p
                        });
                    assert(a.contains_key(j) && a[j].contains(p));
                } else {
                    assert(s == t && renamed_paths(k, m[k], old, new).contains(q));
                    if k.contains(old) {
                        let p = choose|p: Path| #[trigger] m[k].contains(p) && replaced(p, old, new) == q;
                        assert(a.contains_key(k) && a[k].contains(p));
                    } else {
                        assert(a.contains_key(k) && a[k].contains(q));
                    }
                }
            }
        }
        assert(x[s] =~= z[s]);
    }
    assert(x =~= z);
}

/// Giving up one more inode.
proof fn lemma_given_up_step(
    v: InodeView,
    m: Map<Set<Name>, Set<Path>>,
    seen: Set<Set<Name>>,
    k: Set<Name>,
    old: Name,
    new: Name,
)
    requires
        m.contains_key(k),
    ensures
        renamed_inodes(v, m.restrict(seen.insert(k)), old, new) == (if k.contains(old) {
            renamed_inodes(v, m.restrict(seen), old, new).without_dir(given_up(k, old, new))
        } else {
            renamed_inodes(v, m.restrict(seen), old, new)
        }),
{
    let a = m.restrict(seen.insert(k));
    let b = m.restrict(seen);
    let x = renamed_inodes(v, a, old, new);
    let y = renamed_inodes(v, b, old, new);
    let g = given_up(k, old, new);
    let z = if k.contains(old) {
        y.without_dir(g)
    } else {
        y
    };
    let gone_a = |t: Set<Name>|
        exists|j: Set<Name>| #[trigger] a.contains_key(j) && j.contains(old) && given_up(j, old, new) == t;
    let gone_b = |t: Set<Name>|
        exists|j: Set<Name>| #[trigger] b.contains_key(j) && j.contains(old) && given_up(j, old, new) == t;
    assert forall|t: Set<Name>| #[trigger] gone_a(t) == (gone_b(t) || (k.contains(old) && t == g)) by {
        if gone_a(t) {
            let j = choose|j: Set<Name>| #[trigger] a.contains_key(j) && j.contains(old) && given_up(j, old, new) == t;
            if j != k {
                assert(b.contains_key(j));
            }
        }
        if gone_b(t) {
            let j = choose|j: Set<Name>| #[trigger] b.contains_key(j) && j.contains(old) && given_up(j, old, new) == t;
            assert(a.contains_key(j));
        }
        if k.contains(old) && t == g {
            assert(a.contains_key(k));
        }
    }
    assert forall|t: Set<Name>| #[trigger] x.dirs.contains_key(t) == z.dirs.contains_key(t) by {
        assert(gone_a(t) == (gone_b(t) || (k.contains(old) && t == g)));
        assert(x.dirs.contains_key(t) == (v.dirs.contains_key(t) && !gone_a(t)));
        assert(y.dirs.contains_key(t) == (v.dirs.contains_key(t) && !gone_b(t)));
    }
    assert(x.dirs =~= z.dirs);
    assert forall|i: u64| #[trigger] x.nodes.contains_key(i) == z.nodes.contains_key(i) by {
        if v.nodes.contains_key(i) {
            if !x.nodes.contains_key(i) {
                let t = choose|t: Set<Name>| #[trigger] v.dirs.contains_key(t) && gone_a(t) && v.dirs[t] == i;
                assert(v.dirs.contains_key(t) && gone_a(t) && v.dirs[t] == i);
                assert(gone_b(t) || (k.contains(old) && t == g));
                if !gone_b(t) {
                    assert(y.dirs.contains_key(g));
                    assert(y.dirs[g] == i);
                }
            }
            if !y.nodes.contains_key(i) {
                let t = choose|t: Set<Name>| #[trigger] v.dirs.contains_key(t) && gone_b(t) && v.dirs[t] == i;
                assert(v.dirs.contains_key(t) && gone_b(t) && v.dirs[t] == i);
                assert(gone_a(t));
                assert(!x.nodes.contains_key(i));
            } else if !z.nodes.contains_key(i) {
                assert(k.contains(old) && y.dirs.contains_key(g) && y.dirs[g] == i);
                assert(v.dirs.contains_key(g) && gone_a(g) && v.dirs[g] == i);
                assert(!x.nodes.contains_key(i));
            }
        }
    }
    assert(x.nodes =~= z.nodes);
    assert(x =~= z);
}

/// The paths of a list of renames.
pub open spec fn pairs(list: Seq<(FsPath, FsPath)>) -> Seq<(Path, Path)> {
    Seq::new(list.len(), |i: int| (list[i].0@, list[i].1@))
}

/// Deep directories come first.
pub open spec fn deep_first(list: Seq<(Path, Path)>) -> bool {
    forall|i: int, j: int|
        0 <= i < j < list.len() ==> #[trigger] list[i].0.len() >= #[trigger] list[j].0.len()
}

/// Adds a rename to the list, where it is not there yet.
fn insert_point(list: &mut Vec<(FsPath, FsPath)>, x: (FsPath, FsPath))
    requires
        pairs(old(list)@).no_duplicates(),
        deep_first(pairs(old(list)@)),
    ensures
        pairs(final(list)@).no_duplicates(),
        deep_first(pairs(final(list)@)),
        forall|y: (Path, Path)| #[trigger]
            pairs(final(list)@).contains(y) <==> pairs(old(list)@).contains(y) || y == (x.0@, x.1@),
{
    let ghost s = pairs(list@);
    let ghost v = (x.0@, x.1@);
    let depth = x.0.len();
    let mut place: usize = 0;
    let mut i: usize = 0;
    while i < list.len()
        invariant
            i <= list@.len(),
            s == pairs(list@),
            s == pairs(old(list)@),
            s.no_duplicates(),
            deep_first(s),
            v == (x.0@, x.1@),
            depth == x.0@.len(),
            place <= i,
            forall|j: int| 0 <= j < i ==> #[trigger] s[j] != v,
            forall|j: int| 0 <= j < place ==> #[trigger] s[j].0.len() >= depth,
            forall|j: int| place <= j < i ==> #[trigger] s[j].0.len() < depth,
        decreases list@.len() - i,
    {
        assert(s[i as int] == (list@[i as int].0@, list@[i as int].1@));
        if same_path(&list[i].0, &x.0) && same_path(&list[i].1, &x.1) {
            assert(s[i as int] == v);
            assert(s.contains(v));
            return;
        }
        if list[i].0.len() >= depth {
            assert(s[i as int].0.len() >= depth);
            assert(place == i) by {
                if place < i {
                    assert(s[place as int].0.len() < depth);
                }
            }
            place = i + 1;
        }
        i += 1;
    }
    list.insert(place, x);
    let ghost t = pairs(list@);
    proof {
        assert(t =~= s.insert(place as int, v));
        assert forall|i: int, j: int| 0 <= i < j < t.len() implies #[trigger] t[i].0.len()
            >= #[trigger] t[j].0.len() && t[i] != t[j] by {
            let p = if i < place { i } else { i - 1 };
            let q = if j < place { j } else { j - 1 };
            if i != place {
                assert(t[i] == s[p]);
            }
            if j != place {
                assert(t[j] == s[q]);
            }
        }
        assert forall|y: (Path, Path)| #[trigger] t.contains(y) <==> s.contains(y) || y == v by {
            if s.contains(y) {
                let p = choose|p: int| 0 <= p < s.len() && s[p] == y;
                let q = if p < place { p } else { p + 1 };
                assert(t[q] == y);
            }
            if y == v {
                assert(t[place as int] == y);
            }
            if t.contains(y) {
                let q = choose|q: int| 0 <= q < t.len() && t[q] == y;
                if q < place {
                    assert(s[q] == y);
                } else if q > place {
                    assert(s[q - 1] == y);
                }
            }
        }
    }
}

/// Adds the directories to rename for `p` to the list.
fn add_points(list: &mut Vec<(FsPath, FsPath)>, p: &FsPath, old_tag: &str, new_tag: &str)
    requires
        pairs(old(list)@).no_duplicates(),
        deep_first(pairs(old(list)@)),
    ensures
        pairs(final(list)@).no_duplicates(),
        deep_first(pairs(final(list)@)),
        forall|y: (Path, Path)| #[trigger]
            pairs(final(list)@).contains(y) <==> pairs(old(list)@).contains(y) || rename_point(
                p@,
                old_tag@,
                new_tag@,
                y,
            ),
{
    let ghost had = pairs(list@);
    let n = p.len();
    let mut i: usize = 0;
    while i < n
        invariant
            i <= n,
            n == p@.len(),
            had == pairs(old(list)@),
            pairs(list@).no_duplicates(),
            deep_first(pairs(list@)),
            forall|y: (Path, Path)| #[trigger]
                pairs(list@).contains(y) <==> had.contains(y) || exists|k: int|
                    0 <= k < i && #[trigger] spelled(p@, old_tag@, k) && y == renamed_dir(
                        p@,
                        k,
                        new_tag@,
                    ),
        decreases n - i,
    {
        let ghost prev = pairs(list@);
        let t = text(p.comp(i));
        if same_text(t.as_str(), old_tag) {
            let x = (p.prefix(i + 1), p.prefix(i).join_text(new_tag));
            assert((x.0@, x.1@) == renamed_dir(p@, i as int, new_tag@));
            insert_point(list, x);
        }
        proof {
            assert forall|y: (Path, Path)| #[trigger]
                pairs(list@).contains(y) <==> had.contains(y) || exists|k: int|
                    0 <= k < i + 1 && #[trigger] spelled(p@, old_tag@, k) && y == renamed_dir(
                        p@,
                        k,
                        new_tag@,
                    ) by {
                if prev.contains(y) && !had.contains(y) {
                    let k = choose|k: int|
                        0 <= k < i && #[trigger] spelled(p@, old_tag@, k) && y == renamed_dir(
                            p@,
                            k,
                            new_tag@,
                        );
                    assert(0 <= k < i + 1 && spelled(p@, old_tag@, k));
                }
                if spelled(p@, old_tag@, i as int) && y == renamed_dir(p@, i as int, new_tag@) {
                    assert(0 <= i < i + 1 && spelled(p@, old_tag@, i as int));
                }
                if pairs(list@).contains(y) && !prev.contains(y) {
                    assert(spelled(p@, old_tag@, i as int));
                }
            }
        }
        i += 1;
    }
    proof {
        assert forall|y: (Path, Path)| #[trigger]
            pairs(list@).contains(y) <==> had.contains(y) || rename_point(
                p@,
                old_tag@,
                new_tag@,
                y,
            ) by {
            if rename_point(p@, old_tag@, new_tag@, y) {
                let k = choose|k: int| #[trigger]
                    spelled(p@, old_tag@, k) && y == renamed_dir(p@, k, new_tag@);
                assert(0 <= k < n && spelled(p@, old_tag@, k));
            }
        }
    }
}

/// Whether two directories of a plan would be moved to one place.
pub fn has_clash(list: &Vec<(FsPath, FsPath)>) -> (r: bool)
    ensures
        r == clashes(pairs(list@)),
{
    let ghost s = pairs(list@);
    let n = list.len();
    let mut j: usize = 0;
    while j < n
        invariant
            j <= n,
            n == list@.len(),
            s == pairs(list@),
            forall|a: int, b: int|
                0 <= a < b < j ==> (#[trigger] s[a]).1 != (#[trigger] s[b]).1,
        decreases n - j,
    {
        let mut i: usize = 0;
        while i < j
            invariant
                i <= j < n,
                n == list@.len(),
                s == pairs(list@),
                forall|a: int| 0 <= a < i ==> (#[trigger] s[a]).1 != s[j as int].1,
            decreases j - i,
        {
            assert(s[i as int].1 == list@[i as int].1@);
            assert(s[j as int].1 == list@[j as int].1@);
            if same_path(&list[i].1, &list[j].1) {
                return true;
            }
            i += 1;
        }
        j += 1;
    }
    false
}

/// Whether two paths are the same.
pub fn same_path(a: &FsPath, b: &FsPath) -> (r: bool)
    ensures
        r == (a@ == b@),
{
    let r = match a.order(b) {
        Order::Equal => true,
        _ => false,
    };
    proof {
        <FsPath as Key>::before_irreflexive(a@);
    }
    r
}

impl FsState {
    /// The directories to rename when a tag is, deep ones first.
    pub fn rename_plan(&self, old_tag: &str, new_tag: &str) -> (list: Vec<(FsPath, FsPath)>)
        ensures
            is_rename_plan(pairs(list@), self@.tagdirs, old_tag@, new_tag@),
    {
        let old_name = old_tag.to_owned();
        let mut list: Vec<(FsPath, FsPath)> = Vec::new();
        let n = self.tagdirs.len();
        let ghost keys = self.tagdirs.keys();
        let ghost vals = self.tagdirs.vals();
        let ghost mut seen = Set::<Path>::empty();
        let mut i: usize = 0;
        while i < n
            invariant
                i <= n,
                n == keys.len(),
                n == vals.len(),
                keys == self.tagdirs.keys(),
                vals == self.tagdirs.vals(),
                old_name@ == old_tag@,
                pairs(list@).no_duplicates(),
                deep_first(pairs(list@)),
                forall|x: (Path, Path)| #[trigger]
                    pairs(list@).contains(x) <==> exists|p: Path| #[trigger]
                        seen.contains(p) && rename_point(p, old_tag@, new_tag@, x),
                forall|p: Path| #[trigger]
                    seen.contains(p) <==> exists|j: int|
                        0 <= j < i && (#[trigger] keys[j]).contains(old_tag@) && vals[j].contains(p),
            decreases n - i,
        {
            let ghost before = seen;
            if self.tagdirs.key_at(i).contains(&old_name) {
                let paths = self.tagdirs.value_at(i);
                let m = paths.len();
                let ghost q = paths.seq();
                let mut j: usize = 0;
                assert(before =~= before.union(q.take(0).to_set()));
                while j < m
                    invariant
                        j <= m,
                        m == q.len(),
                        q == paths.seq(),
                        pairs(list@).no_duplicates(),
                        deep_first(pairs(list@)),
                        seen == before.union(q.take(j as int).to_set()),
                        forall|x: (Path, Path)| #[trigger]
                            pairs(list@).contains(x) <==> exists|p: Path| #[trigger]
                                seen.contains(p) && rename_point(p, old_tag@, new_tag@, x),
                    decreases m - j,
                {
                    let ghost had = pairs(list@);
                    let ghost prev = seen;
                    let ghost path = q[j as int];
                    add_points(&mut list, paths.at(j), old_tag, new_tag);
                    proof {
                        lemma_take_set(q, j as int);
                        seen = prev.insert(path);
                        assert(seen =~= before.union(q.take(j + 1).to_set()));
                        assert forall|x: (Path, Path)| #[trigger]
                            pairs(list@).contains(x) <==> exists|p: Path| #[trigger]
                                seen.contains(p) && rename_point(p, old_tag@, new_tag@, x) by {
                            if had.contains(x) {
                                let p = choose|p: Path| #[trigger]
                                    prev.contains(p) && rename_point(p, old_tag@, new_tag@, x);
                                assert(seen.contains(p));
                            }
                            if rename_point(path, old_tag@, new_tag@, x) {
                                assert(seen.contains(path));
                                assert(pairs(list@).contains(x));
                            }
                            if exists|p: Path| #[trigger]
                                seen.contains(p) && rename_point(p, old_tag@, new_tag@, x) {
                                let p = choose|p: Path| #[trigger]
                                    seen.contains(p) && rename_point(p, old_tag@, new_tag@, x);
                                if p != path {
                                    assert(prev.contains(p));
                                    assert(had.contains(x));
                                }
                            }
                        }
                    }
                    j += 1;
                }
                assert(q.take(m as int) =~= q);
                assert(seen == before.union(vals[i as int]));
            }
            assert forall|p: Path| #[trigger]
                seen.contains(p) <==> exists|j: int|
                    0 <= j < i + 1 && (#[trigger] keys[j]).contains(old_tag@) && vals[j].contains(p) by {
                if before.contains(p) {
                    let j = choose|j: int|
                        0 <= j < i && (#[trigger] keys[j]).contains(old_tag@) && vals[j].contains(p);
                    assert(0 <= j < i + 1 && keys[j].contains(old_tag@));
                }
                if keys[i as int].contains(old_tag@) && vals[i as int].contains(p) {
                    assert(0 <= i < i + 1);
                    assert(seen.contains(p));
                }
            }
            i += 1;
        }
        proof {
            let m = self@.tagdirs;
            assert forall|p: Path| #[trigger] seen.contains(p) <==> tagged_dir(m, old_tag@, p) by {
                if seen.contains(p) {
                    let j = choose|j: int|
                        0 <= j < n && (#[trigger] keys[j]).contains(old_tag@) && vals[j].contains(p);
                    assert(m.contains_key(keys[j]) && m[keys[j]] == vals[j]);
                }
                if tagged_dir(m, old_tag@, p) {
                    let k = choose|k: Set<Name>| #[trigger]
                        m.contains_key(k) && k.contains(old_tag@) && m[k].contains(p);
                    assert(keys.to_set().contains(k));
                    let j = choose|j: int| 0 <= j < keys.len() && keys[j] == k;
                    assert(m[keys[j]] == vals[j]);
                    assert(0 <= j < n && keys[j].contains(old_tag@) && vals[j].contains(p));
                }
            }
            assert forall|x: (Path, Path)| #[trigger]
                pairs(list@).contains(x) <==> exists|p: Path| #[trigger]
                    tagged_dir(m, old_tag@, p) && rename_point(p, old_tag@, new_tag@, x) by {
                if pairs(list@).contains(x) {
                    let p = choose|p: Path| #[trigger]
                        seen.contains(p) && rename_point(p, old_tag@, new_tag@, x);
                    assert(tagged_dir(m, old_tag@, p));
                }
                if exists|p: Path| #[trigger]
                    tagged_dir(m, old_tag@, p) && rename_point(p, old_tag@, new_tag@, x) {
                    let p = choose|p: Path| #[trigger]
                        tagged_dir(m, old_tag@, p) && rename_point(p, old_tag@, new_tag@, x);
                    assert(seen.contains(p));
                }
            }
        }
        list
    }

    /// Notes that a tag was renamed.
    pub fn record_rename_tag(&mut self, old_tag: &String, new_tag: &String)
        ensures
            final(self)@ == old(self)@.with_renamed_tag(old_tag@, new_tag@),
    {
        self.rename_in_tagdirs(old_tag, new_tag);
        let file_set = match self.by_tags.remove(old_tag) {
            Some(set) => set,
            None => SortedSet::new(),
        };
        self.by_tags.insert(new_tag.clone(), file_set);
        self.rename_in_files(old_tag, new_tag);
    }

    fn rename_in_tagdirs(&mut self, old_tag: &String, new_tag: &String)
        ensures
            final(self).files@ == old(self).files@,
            final(self).by_tags@ == old(self).by_tags@,
            final(self).tagdirs@ == renamed_tagdirs(old(self).tagdirs@, old_tag@, new_tag@),
            final(self).inode_table@ == renamed_inodes(
                old(self).inode_table@,
                old(self).tagdirs@,
                old_tag@,
                new_tag@,
            ),
    {
        let n = self.tagdirs.len();
        let ghost m = self.tagdirs@;
        let ghost keys = self.tagdirs.keys();
        let ghost vals = self.tagdirs.vals();
        let mut fresh: TagMap<PathSet> = SortedMap::new();
        let mut i: usize = 0;
        proof {
            let none = m.restrict(keys.take(0).to_set());
            assert(fresh@ =~= renamed_tagdirs(none, old_tag@, new_tag@));
            assert(self.inode_table@ =~= renamed_inodes(
                old(self).inode_table@,
                none,
                old_tag@,
                new_tag@,
            ));
        }
        while i < n
            invariant
                i <= n,
                n == keys.len(),
                keys == self.tagdirs.keys(),
                vals == self.tagdirs.vals(),
                m == self.tagdirs@,
                m == old(self).tagdirs@,
                forall|j: int| 0 <= j < n ==> m.contains_key(#[trigger] keys[j]) && m[keys[j]] == vals[j],
                self.files@ == old(self).files@,
                self.by_tags@ == old(self).by_tags@,
                fresh@ == renamed_tagdirs(
                    m.restrict(keys.take(i as int).to_set()),
                    old_tag@,
                    new_tag@,
                ),
                self.inode_table@ == renamed_inodes(
                    old(self).inode_table@,
                    m.restrict(keys.take(i as int).to_set()),
                    old_tag@,
                    new_tag@,
                ),
            decreases n - i,
        {
            let ghost k = keys[i as int];
            let ghost seen = keys.take(i as int).to_set();
            let mut key = self.tagdirs.key_at(i).dup();
            let paths = self.tagdirs.value_at(i);
            let moved: PathSet;
            if key.contains(old_tag) {
                moved = replace_in_paths(paths, old_tag, new_tag);
                key.remove(old_tag);
                key.insert(new_tag.clone());
                let mut gone = key.dup();
                gone.remove(new_tag);
                gone.insert(old_tag.clone());
                self.inode_table.remove_dir(&gone);
            } else {
                moved = paths.dup();
            }
            let mut all = match fresh.remove(&key) {
                Some(set) => set,
                None => SortedSet::new(),
            };
            all.extend(&moved);
            let ghost was = renamed_tagdirs(m.restrict(seen), old_tag@, new_tag@);
            fresh.insert(key, all);
            proof {
                lemma_take_set(keys, i as int);
                lemma_renamed_step(m, seen, k, old_tag@, new_tag@);
                lemma_given_up_step(old(self).inode_table@, m, seen, k, old_tag@, new_tag@);
                assert(key@ == renamed_tags(k, old_tag@, new_tag@));
                assert(fresh@ =~= merged(
                    was,
                    renamed_tags(k, old_tag@, new_tag@),
                    renamed_paths(k, m[k], old_tag@, new_tag@),
                ));
            }
            i += 1;
        }
        proof {
            assert(keys.take(n as int) =~= keys);
            assert(m.restrict(keys.to_set()) =~= m);
        }
        self.tagdirs = fresh;
    }

    fn rename_in_files(&mut self, old_tag: &String, new_tag: &String)
        ensures
            final(self).tagdirs@ == old(self).tagdirs@,
            final(self).by_tags@ == old(self).by_tags@,
            final(self).inode_table@ == old(self).inode_table@,
            final(self).files@ == old(self).files@.map_values(
                |f: FileView| renamed_entry(f, old_tag@, new_tag@),
            ),
    {
        let n = self.files.len();
        let ghost m = self.files@;
        let ghost keys = self.files.keys();
        let ghost vals = self.files.vals();
        let ghost f = |f: FileView| renamed_entry(f, old_tag@, new_tag@);
        let mut fresh: NameMap<FileEntry> = SortedMap::new();
        let mut i: usize = 0;
        assert(fresh@ =~= m.restrict(keys.take(0).to_set()).map_values(f));
        while i < n
            invariant
                i <= n,
                n == keys.len(),
                keys == self.files.keys(),
                vals == self.files.vals(),
                m == self.files@,
                f == (|f: FileView| renamed_entry(f, old_tag@, new_tag@)),
                forall|j: int| 0 <= j < n ==> m.contains_key(#[trigger] keys[j]) && m[keys[j]] == vals[j],
                *self == *old(self),
                fresh@ == m.restrict(keys.take(i as int).to_set()).map_values(f),
            decreases n - i,
        {
            let entry = self.files.value_at(i);
            let mut tags = entry.tags.dup();
            let ffn: FsPath;
            if tags.contains(old_tag) {
                tags.remove(old_tag);
                tags.insert(new_tag.clone());
                ffn = FsState::replace_tag_above(&entry.ffn, old_tag.as_str(), new_tag.as_str());
            } else {
                ffn = entry.ffn.dup();
            }
            let renamed = FileEntry { ffn, tags };
            assert(renamed@ == f(vals[i as int]));
            fresh.insert(self.files.key_at(i).clone(), renamed);
            proof {
                lemma_take_set(keys, i as int);
            }
            i += 1;
            assert(fresh@ =~= m.restrict(keys.take(i as int).to_set()).map_values(f));
        }
        proof {
            assert(keys.take(n as int) =~= keys);
            assert(m.restrict(keys.to_set()) =~= m);
        }
        self.files = fresh;
    }
}

/// The paths with a tag replaced in each.
fn replace_in_paths(paths: &PathSet, old_tag: &String, new_tag: &String) -> (r: PathSet)
    ensures
        r@ == paths@.map(|p: Path| replaced(p, old_tag@, new_tag@)),
{
    let ghost f = |p: Path| replaced(p, old_tag@, new_tag@);
    let mut r: PathSet = SortedSet::new();
    let n = paths.len();
    let ghost q = paths.seq();
    let mut i: usize = 0;
    assert(r@ =~= q.take(0).to_set().map(f));
    while i < n
        invariant
            i <= n,
            n == q.len(),
            q == paths.seq(),
            f == (|p: Path| replaced(p, old_tag@, new_tag@)),
            r@ == q.take(i as int).to_set().map(f),
        decreases n - i,
    {
        r.insert(FsState::replace_tag_in_path(paths.at(i), old_tag.as_str(), new_tag.as_str()));
        proof {
            lemma_take_set(q, i as int);
            q.take(i as int).to_set().lemma_set_map_insert_commute(q[i as int], f);
        }
        i += 1;
    }
    assert(q.take(n as int) =~= q);
    r
}

} // verus!
