//! The state of the filesystem: what is tagged how, and where it is.
use vstd::prelude::*;
use vstd::utf8::*;

use crate::inode::{InodeTable, InodeView};
use crate::names::{
    lemma_sorted_paths, sorted_names, Name, NameMap, NameSet, Path, PathSet, TagMap,
};
use crate::path::{leads_to, parse_path, path_join, path_of, relocated, FsPath};
use crate::scanner::{
    add_all, dir_of, drop_all, file_tags, name_tags, touch_all, FileEntry, FileView, ScanResult,
    ScanView,
};
use crate::sorted_map::{added, set_of};
use crate::sorted_set::{in_order, SortedSet};
use crate::text::{same_text, text, text_of};

verus! {

/// Everything that changes while the filesystem is mounted.
pub struct FsState {
    /// Each file by its basename.
    pub files: NameMap<FileEntry>,
    /// The directories of each set of tags.
    pub tagdirs: TagMap<PathSet>,
    /// The basenames that have each tag.
    pub by_tags: NameMap<NameSet>,
    /// The inodes in use.
    pub inode_table: InodeTable,
}

/// What an `FsState` says.
#[verifier::ext_equal]
pub struct FsView {
    pub files: Map<Name, FileView>,
    pub tagdirs: Map<Set<Name>, Set<Path>>,
    pub by_tags: Map<Name, Set<Name>>,
    pub inodes: InodeView,
}

impl View for FsState {
    type V = FsView;

    open spec fn view(&self) -> FsView {
        FsView {
            files: self.files@,
            tagdirs: self.tagdirs@,
            by_tags: self.by_tags@,
            inodes: self.inode_table@,
        }
    }
}

/// The directory of a set of tags that comes first.
pub open spec fn first_path(dirs: Set<Path>) -> Path {
    in_order::<FsPath>(dirs)[0]
}

/// The first directory is one of them.
pub proof fn lemma_first_path(dirs: Set<Path>)
    requires
        dirs.finite(),
        dirs != Set::<Path>::empty(),
    ensures
        dirs.contains(first_path(dirs)),
{
    lemma_sorted_paths(dirs);
    let q = in_order::<FsPath>(dirs);
    assert(q.len() > 0) by {
        if q.len() == 0 {
            assert(q.to_set() =~= Set::<Path>::empty());
        }
    }
    assert(q.to_set().contains(q[0]));
}

/// A path with the components that spell `old` replaced by `new`. The others stay
/// as they are.
pub open spec fn replaced(p: Path, old: Name, new: Name) -> Path
    decreases p.len(),
{
    if p.len() == 0 {
        Seq::empty()
    } else {
        path_join(
            replaced(p.drop_last(), old, new),
            if text_of(p.last()) == old {
                parse_path(encode_utf8(new))
            } else {
                seq![p.last()]
            },
        )
    }
}

/// The place of a file with `old` replaced by `new` in the directories above it.
pub open spec fn replaced_above(p: Path, old: Name, new: Name) -> Path {
    if p.len() == 0 {
        p
    } else {
        path_join(replaced(p.drop_last(), old, new), seq![p.last()])
    }
}

/// Component `i` of `p` spells `tag`.
pub open spec fn spelled(p: Path, tag: Name, i: int) -> bool {
    0 <= i < p.len() && text_of(p[i]) == tag
}

/// The directory whose own name is component `i` of `p`, with its path once it
/// is called `new`.
pub open spec fn renamed_dir(p: Path, i: int, new: Name) -> (Path, Path) {
    (p.take(i + 1), path_join(p.take(i), parse_path(encode_utf8(new))))
}

/// A directory that has to be renamed for `p` when a tag is: one whose own name
/// spells the tag, with its new path.
pub open spec fn rename_point(p: Path, old: Name, new: Name, point: (Path, Path)) -> bool {
    exists|i: int| #[trigger] spelled(p, old, i) && point == renamed_dir(p, i, new)
}

/// Two directories of a plan would be moved to one place.
pub open spec fn clashes(plan: Seq<(Path, Path)>) -> bool {
    exists|i: int, j: int|
        0 <= i < j < plan.len() && (#[trigger] plan[i]).1 == (#[trigger] plan[j]).1
}

/// `p` is a directory of a set of tags with `tag` in it.
pub open spec fn tagged_dir(tagdirs: Map<Set<Name>, Set<Path>>, tag: Name, p: Path) -> bool {
    exists|k: Set<Name>| #[trigger]
        tagdirs.contains_key(k) && k.contains(tag) && tagdirs[k].contains(p)
}

/// `list` holds each directory that has to be renamed once, deep ones first.
pub open spec fn is_rename_plan(
    list: Seq<(Path, Path)>,
    tagdirs: Map<Set<Name>, Set<Path>>,
    old: Name,
    new: Name,
) -> bool {
    &&& list.no_duplicates()
    &&& forall|x: (Path, Path)| #[trigger]
        list.contains(x) <==> exists|p: Path| #[trigger]
            tagged_dir(tagdirs, old, p) && rename_point(p, old, new, x)
    &&& forall|i: int, j: int|
        0 <= i < j < list.len() ==> #[trigger] list[i].0.len() >= #[trigger] list[j].0.len()
}

/// A set of tags with `old` renamed to `new`.
pub open spec fn renamed_tags(tags: Set<Name>, old: Name, new: Name) -> Set<Name> {
    if tags.contains(old) {
        tags.remove(old).insert(new)
    } else {
        tags
    }
}

/// The directories of each set of tags after `old` was renamed to `new`.
pub open spec fn renamed_tagdirs(
    m: Map<Set<Name>, Set<Path>>,
    old: Name,
    new: Name,
) -> Map<Set<Name>, Set<Path>> {
    Map::new(
        |t: Set<Name>|
            exists|k: Set<Name>| #[trigger] m.contains_key(k) && renamed_tags(k, old, new) == t,
        |t: Set<Name>|
            Set::new(
                |q: Path|
                    exists|k: Set<Name>, p: Path|
                        #![trigger m.contains_key(k), m[k].contains(p)]
                        m.contains_key(k) && renamed_tags(k, old, new) == t && m[k].contains(p) && q
                            == (if k.contains(old) {
                            replaced(p, old, new)
                        } else {
                            p
                        }),
            ),
    )
}

/// The set of tags whose inode a renamed set gives up.
pub open spec fn given_up(k: Set<Name>, old: Name, new: Name) -> Set<Name> {
    renamed_tags(k, old, new).remove(new).insert(old)
}

/// The inodes after those of the sets with `old` were given up.
pub open spec fn renamed_inodes(
    v: InodeView,
    m: Map<Set<Name>, Set<Path>>,
    old: Name,
    new: Name,
) -> InodeView {
    let gone = |t: Set<Name>|
        exists|k: Set<Name>| #[trigger] m.contains_key(k) && k.contains(old) && given_up(k, old, new) == t;
    InodeView {
        nodes: v.nodes.remove_keys(
            Set::new(|i: u64| exists|t: Set<Name>| #[trigger] v.dirs.contains_key(t) && gone(t) && v.dirs[t] == i),
        ),
        dirs: v.dirs.remove_keys(Set::new(|t: Set<Name>| gone(t))),
        files: v.files,
        next: v.next,
    }
}

/// A file after `old` was renamed to `new`.
pub open spec fn renamed_entry(f: FileView, old: Name, new: Name) -> FileView {
    if f.tags.contains(old) {
        FileView { ffn: replaced_above(f.ffn, old, new), tags: renamed_tags(f.tags, old, new) }
    } else {
        f
    }
}

/// A file after the directory `a` was moved to `b`.
pub open spec fn moved_entry(f: FileView, a: Path, b: Path) -> FileView {
    if leads_to(a, f.ffn) {
        FileView { ffn: relocated(f.ffn, a, b), tags: file_tags(relocated(f.ffn, a, b)) }
    } else {
        f
    }
}

/// The tags of a directory after the directory `a` was moved to `b`.
pub open spec fn moved_key(k: Set<Name>, p: Path, a: Path, b: Path) -> Set<Name> {
    if leads_to(a, p) {
        name_tags(relocated(p, a, b))
    } else {
        k
    }
}

/// `p` was a directory of the tags `k`, and is `q` of the tags `t` after the
/// directory `a` was moved to `b`.
pub open spec fn moves_into(
    m: Map<Set<Name>, Set<Path>>,
    k: Set<Name>,
    p: Path,
    a: Path,
    b: Path,
    t: Set<Name>,
    q: Path,
) -> bool {
    m.contains_key(k) && m[k].contains(p) && moved_key(k, p, a, b) == t && relocated(p, a, b) == q
}

/// The directories of each set of tags after the directory `a` was moved to `b`.
pub open spec fn moved_tagdirs(m: Map<Set<Name>, Set<Path>>, a: Path, b: Path) -> Map<
    Set<Name>,
    Set<Path>,
> {
    Map::new(
        |t: Set<Name>|
            exists|k: Set<Name>, p: Path, q: Path| #[trigger] moves_into(m, k, p, a, b, t, q),
        |t: Set<Name>|
            Set::new(
                |q: Path| exists|k: Set<Name>, p: Path| #[trigger] moves_into(m, k, p, a, b, t, q),
            ),
    )
}

/// A file or a directory has the tag `t`, or it is known already.
pub open spec fn has_tag(
    known: Set<Name>,
    files: Map<Name, FileView>,
    tagdirs: Map<Set<Name>, Set<Path>>,
    t: Name,
) -> bool {
    ||| known.contains(t)
    ||| exists|n: Name| #[trigger] files.contains_key(n) && files[n].tags.contains(t)
    ||| exists|k: Set<Name>| #[trigger] tagdirs.contains_key(k) && k.contains(t)
}

/// The basenames that have each tag, as the files say.
pub open spec fn listed_by_tags(
    known: Set<Name>,
    files: Map<Name, FileView>,
    tagdirs: Map<Set<Name>, Set<Path>>,
) -> Map<Name, Set<Name>> {
    Map::new(
        |t: Name| has_tag(known, files, tagdirs, t),
        |t: Name| Set::new(|n: Name| files.contains_key(n) && files[n].tags.contains(t)),
    )
}

/// `m` with `new` in place of `old` in the sets of `tags`.
pub open spec fn swap_all(
    m: Map<Name, Set<Name>>,
    tags: Set<Name>,
    old: Name,
    new: Name,
) -> Map<Name, Set<Name>> {
    Map::new(
        |t: Name| m.contains_key(t),
        |t: Name|
            if tags.contains(t) {
                m[t].remove(old).insert(new)
            } else {
                m[t]
            },
    )
}

impl FsView {
    /// The state right after a scan.
    pub open spec fn of_scan(scan: ScanView) -> FsView {
        FsView {
            files: scan.files,
            tagdirs: scan.tagdirs,
            by_tags: scan.by_tags,
            inodes: InodeView::fresh(),
        }
    }

    /// The tags that lead on from `current`: those that occur together with all
    /// of it.
    pub open spec fn avail_tags(self, current: Set<Name>) -> Set<Name> {
        Set::new(
            |t: Name|
                !current.contains(t) && exists|k: Set<Name>| #[trigger]
                    self.tagdirs.contains_key(k) && current.subset_of(k) && k.contains(t),
        )
    }

    /// The files without tags.
    pub open spec fn untagged_files(self) -> Set<Name> {
        Set::new(|n: Name| self.files.contains_key(n) && self.files[n].tags == Set::<Name>::empty())
    }

    /// The files that are listed under each of `tags`; all files where there
    /// are none.
    pub open spec fn matching_files(self, tags: Set<Name>) -> Set<Name> {
        if tags == Set::<Name>::empty() {
            self.files.dom()
        } else {
            Set::new(
                |n: Name|
                    forall|t: Name| #[trigger]
                        tags.contains(t) ==> self.by_tags.contains_key(t) && self.by_tags[t].contains(n),
            )
        }
    }

    /// A set of tags has a directory already.
    pub open spec fn knows_dir(self, tags: Set<Name>) -> bool {
        self.tagdirs.contains_key(tags) && self.tagdirs[tags] != Set::<Path>::empty()
    }

    /// The directory for files with these tags: the first one there is, else
    /// one that is named after the tags in their order.
    pub open spec fn dir_for_tags(self, tags: Set<Name>) -> Path {
        if self.knows_dir(tags) {
            first_path(self.tagdirs[tags])
        } else {
            path_of(sorted_names(tags))
        }
    }

    /// The directory for these tags has to be made first.
    pub open spec fn dir_is_missing(self, tags: Set<Name>) -> bool {
        !self.knows_dir(tags) && tags != Set::<Name>::empty()
    }

    /// The state once the directory for these tags is there.
    pub open spec fn with_dir_for_tags(self, tags: Set<Name>) -> FsView {
        if self.knows_dir(tags) {
            self
        } else {
            FsView {
                tagdirs: added(self.tagdirs, tags, self.dir_for_tags(tags)),
                by_tags: touch_all(self.by_tags, tags),
                ..self
            }
        }
    }

    /// Where a file is after its basename became `new`.
    pub open spec fn renamed_ffn(self, old: Name, new: Name) -> Path {
        path_join(dir_of(self.files[old].ffn), parse_path(encode_utf8(new)))
    }

    /// The state after the file `old` was renamed to `new`.
    pub open spec fn with_renamed_file(self, old: Name, new: Name) -> FsView {
        let f = self.files[old];
        FsView {
            files: self.files.remove(old).insert(
                new,
                FileView { ffn: self.renamed_ffn(old, new), tags: f.tags },
            ),
            tagdirs: self.tagdirs,
            by_tags: swap_all(self.by_tags, f.tags, old, new),
            inodes: self.inodes.without_file(old).with_file(new),
        }
    }

    /// The tags of a file after some were added and some taken off.
    pub open spec fn changed_tags(self, bn: Name, add: Set<Name>, remove: Set<Name>) -> Set<Name> {
        self.files[bn].tags.union(add).difference(remove)
    }

    /// The state after the file `bn` was moved to `ffn` to change its tags.
    pub open spec fn with_changed_tags(
        self,
        bn: Name,
        add: Set<Name>,
        remove: Set<Name>,
        ffn: Path,
    ) -> FsView {
        FsView {
            files: self.files.insert(
                bn,
                FileView { ffn, tags: self.changed_tags(bn, add, remove) },
            ),
            by_tags: drop_all(add_all(self.by_tags, add, bn), remove, bn),
            ..self
        }
    }

    /// The state after the tag `old` was renamed to `new`.
    pub open spec fn with_renamed_tag(self, old: Name, new: Name) -> FsView {
        FsView {
            files: self.files.map_values(|f: FileView| renamed_entry(f, old, new)),
            tagdirs: renamed_tagdirs(self.tagdirs, old, new),
            by_tags: self.by_tags.remove(old).insert(new, set_of(self.by_tags, old)),
            inodes: renamed_inodes(self.inodes, self.tagdirs, old, new),
        }
    }

    /// The state after the directory `a` was moved to `b`.
    pub open spec fn with_moved_dir(self, a: Path, b: Path) -> FsView {
        let files = self.files.map_values(|f: FileView| moved_entry(f, a, b));
        let tagdirs = moved_tagdirs(self.tagdirs, a, b);
        FsView {
            files,
            tagdirs,
            by_tags: listed_by_tags(self.by_tags.dom(), files, tagdirs),
            inodes: self.inodes,
        }
    }

    /// The state after directories were moved, one after the other.
    pub open spec fn with_moved_dirs(self, moves: Seq<(Path, Path)>) -> FsView
        decreases moves.len(),
    {
        if moves.len() == 0 {
            self
        } else {
            self.with_moved_dirs(moves.drop_last()).with_moved_dir(moves.last().0, moves.last().1)
        }
    }

    /// A set of tags occurs together with further ones.
    pub open spec fn goes_further(self, tags: Set<Name>) -> bool {
        exists|k: Set<Name>| #[trigger]
            self.tagdirs.contains_key(k) && tags.subset_of(k) && k != tags
    }

    /// The state after the first directory of a set of tags was removed.
    pub open spec fn without_first_dir(self, tags: Set<Name>) -> FsView {
        FsView {
            tagdirs: self.tagdirs.insert(
                tags,
                self.tagdirs[tags].remove(first_path(self.tagdirs[tags])),
            ),
            ..self
        }
    }

    /// The state after the file `bn` was deleted.
    pub open spec fn without_file(self, bn: Name) -> FsView {
        FsView {
            files: self.files.remove(bn),
            tagdirs: self.tagdirs,
            by_tags: drop_all(self.by_tags, self.files[bn].tags, bn),
            inodes: self.inodes.without_file(bn),
        }
    }

    /// The state after a new file `bn` was made at `ffn`.
    pub open spec fn with_new_file(self, bn: Name, tags: Set<Name>, ffn: Path) -> FsView {
        FsView {
            files: self.files.insert(bn, FileView { ffn, tags }),
            tagdirs: self.tagdirs,
            by_tags: add_all(self.by_tags, tags, bn),
            inodes: self.inodes.with_file(bn),
        }
    }

    /// The state after the directories of a set of tags were removed.
    pub open spec fn without_tagdir(self, tags: Set<Name>) -> FsView {
        FsView {
            tagdirs: self.tagdirs.remove(tags),
            inodes: self.inodes.without_dir(tags),
            ..self
        }
    }
}

/// The path that texts spell one after the other.
pub fn path_from_names(names: &Vec<String>) -> (r: FsPath)
    ensures
        r@ == path_of(names@.map_values(|s: String| s@)),
{
    let ghost q = names@.map_values(|s: String| s@);
    let mut r = FsPath::empty();
    let mut i: usize = 0;
    assert(q.take(0) =~= Seq::<Name>::empty());
    while i < names.len()
        invariant
            i <= names@.len(),
            q == names@.map_values(|s: String| s@),
            r@ == path_of(q.take(i as int)),
        decreases names@.len() - i,
    {
        assert(q.take(i + 1).drop_last() =~= q.take(i as int));
        assert(q.take(i + 1).last() == q[i as int]);
        r = r.join_text(names[i].as_str());
        i += 1;
    }
    assert(q.take(i as int) =~= q);
    r
}

impl FsState {
    /// A path with the components that spell `old_tag` replaced by `new_tag`.
    pub fn replace_tag_in_path(path: &FsPath, old_tag: &str, new_tag: &str) -> (r: FsPath)
        ensures
            r@ == replaced(path@, old_tag@, new_tag@),
    {
        let n = path.len();
        let mut r = FsPath::empty();
        let mut i: usize = 0;
        while i < n
            invariant
                i <= n,
                n == path@.len(),
                r@ == replaced(path@.take(i as int), old_tag@, new_tag@),
            decreases n - i,
        {
            assert(path@.take(i + 1).drop_last() =~= path@.take(i as int));
            assert(path@.take(i + 1).last() == path@[i as int]);
            let t = text(path.comp(i));
            if same_text(t.as_str(), old_tag) {
                r = r.join_text(new_tag);
            } else {
                let own = path.prefix(i + 1).suffix(i);
                assert(own@ =~= seq![path@[i as int]]);
                r = r.join(&own);
            }
            i += 1;
        }
        assert(path@.take(n as int) =~= path@);
        r
    }

    /// The place of a file with `old_tag` replaced by `new_tag` in the directories
    /// above it.
    pub fn replace_tag_above(path: &FsPath, old_tag: &str, new_tag: &str) -> (r: FsPath)
        ensures
            r@ == replaced_above(path@, old_tag@, new_tag@),
    {
        let n = path.len();
        if n == 0 {
            return path.dup();
        }
        let dir = path.prefix(n - 1);
        let own = path.suffix(n - 1);
        assert(dir@ =~= path@.drop_last());
        assert(own@ =~= seq![path@.last()]);
        FsState::replace_tag_in_path(&dir, old_tag, new_tag).join(&own)
    }

    /// The state right after a scan.
    pub fn from_scan(scan: ScanResult) -> (r: Self)
        ensures
            r@ == FsView::of_scan(scan@),
    {
        FsState {
            files: scan.files,
            tagdirs: scan.tagdirs,
            by_tags: scan.by_tags,
            inode_table: InodeTable::new(),
        }
    }

    /// The tags that can still be navigated into from the current set of tags.
    pub fn get_avail_tags(&self, current_tags: &NameSet) -> (r: NameSet)
        ensures
            r@ == self@.avail_tags(current_tags@),
    {
        let mut result: NameSet = SortedSet::new();
        let n = self.tagdirs.len();
        let ghost q = self.tagdirs.keys();
        let mut i: usize = 0;
        while i < n
            invariant
                i <= n,
                n == self.tagdirs.keys().len(),
                q == self.tagdirs.keys(),
                forall|t: Name| #[trigger]
                    result@.contains(t) <==> exists|j: int|
                        0 <= j < i && current_tags@.subset_of(#[trigger] q[j]) && q[j].contains(t),
            decreases n - i,
        {
            let ghost before = result@;
            let key = self.tagdirs.key_at(i);
            if current_tags.is_subset(key) {
                result.extend(key);
            }
            assert forall|t: Name| #[trigger]
                result@.contains(t) <==> exists|j: int|
                    0 <= j < i + 1 && current_tags@.subset_of(#[trigger] q[j]) && q[j].contains(t) by {
                if before.contains(t) {
                    let j = choose|j: int|
                        0 <= j < i && current_tags@.subset_of(#[trigger] q[j]) && q[j].contains(t);
                    assert(0 <= j < i + 1 && current_tags@.subset_of(q[j]) && q[j].contains(t));
                }
                if current_tags@.subset_of(q[i as int]) && q[i as int].contains(t) {
                    assert(0 <= i < i + 1);
                    assert(result@.contains(t));
                }
            }
            i += 1;
        }
        result.remove_all(current_tags);
        assert forall|t: Name| #[trigger] result@.contains(t) == self@.avail_tags(current_tags@).contains(t) by {
            if exists|k: Set<Name>| #[trigger] self@.tagdirs.contains_key(k) && current_tags@.subset_of(k) && k.contains(t) {
                let k = choose|k: Set<Name>| #[trigger] self@.tagdirs.contains_key(k) && current_tags@.subset_of(k) && k.contains(t);
                assert(q.to_set().contains(k));
                let j = choose|j: int| 0 <= j < q.len() && q[j] == k;
                assert(0 <= j < n && current_tags@.subset_of(q[j]) && q[j].contains(t));
            }
            if result@.contains(t) {
                let j = choose|j: int| 0 <= j < n && current_tags@.subset_of(#[trigger] q[j]) && q[j].contains(t);
                assert(self@.tagdirs.contains_key(q[j]));
            }
        }
        assert(result@ =~= self@.avail_tags(current_tags@));
        result
    }

    /// The basenames of the files without tags.
    pub fn get_untagged_files(&self) -> (r: NameSet)
        ensures
            r@ == self@.untagged_files(),
    {
        let mut result: NameSet = SortedSet::new();
        let n = self.files.len();
        let ghost q = self.files.keys();
        let mut i: usize = 0;
        while i < n
            invariant
                i <= n,
                n == self.files.keys().len(),
                q == self.files.keys(),
                forall|j: int| 0 <= j < n ==> self.files@.contains_key(#[trigger] self.files.keys()[j])
                    && self.files@[self.files.keys()[j]] == self.files.vals()[j],
                forall|t: Name| #[trigger]
                    result@.contains(t) <==> exists|j: int|
                        0 <= j < i && #[trigger] q[j] == t && self.files@[t].tags == Set::<Name>::empty(),
            decreases n - i,
        {
            let ghost before = result@;
            assert(self.files@[q[i as int]] == self.files.vals()[i as int]);
            if self.files.value_at(i).tags.is_empty() {
                result.insert(self.files.key_at(i).clone());
            }
            assert forall|t: Name| #[trigger]
                result@.contains(t) <==> exists|j: int|
                    0 <= j < i + 1 && #[trigger] q[j] == t && self.files@[t].tags == Set::<Name>::empty() by {
                if before.contains(t) {
                    let j = choose|j: int|
                        0 <= j < i && #[trigger] q[j] == t && self.files@[t].tags == Set::<Name>::empty();
                    assert(0 <= j < i + 1 && q[j] == t);
                }
                if q[i as int] == t && self.files@[t].tags == Set::<Name>::empty() {
                    assert(0 <= i < i + 1);
                    assert(result@.contains(t));
                }
            }
            i += 1;
        }
        assert forall|t: Name| #[trigger] result@.contains(t) == self@.untagged_files().contains(t) by {
            if self@.untagged_files().contains(t) {
                assert(q.to_set().contains(t));
                let j = choose|j: int| 0 <= j < q.len() && q[j] == t;
                assert(0 <= j < n && q[j] == t);
            }
        }
        assert(result@ =~= self@.untagged_files());
        result
    }

    /// The basenames of the files that have all of `tags`.
    pub fn get_matching_files(&self, tags: &NameSet) -> (r: NameSet)
        ensures
            r@ == self@.matching_files(tags@),
    {
        if tags.is_empty() {
            return self.files.key_set();
        }
        let n = tags.len();
        let ghost q = tags.seq();
        assert(n > 0) by {
            if n == 0 {
                assert(tags@ =~= Set::<Name>::empty());
            }
        }
        let mut result: NameSet = match self.by_tags.get(tags.at(0)) {
            Some(set) => set.dup(),
            None => SortedSet::new(),
        };
        let mut i: usize = 1;
        while i < n
            invariant
                1 <= i <= n,
                n == q.len(),
                q == tags.seq(),
                q.to_set() == tags@,
                tags@ != Set::<Name>::empty(),
                forall|x: Name| #[trigger]
                    result@.contains(x) <==> forall|j: int|
                        0 <= j < i ==> self.by_tags@.contains_key(#[trigger] q[j])
                            && self.by_tags@[q[j]].contains(x),
            decreases n - i,
        {
            let ghost before = result@;
            match self.by_tags.get(tags.at(i)) {
                Some(set) => {
                    result = result.intersection(set);
                    assert forall|x: Name| #[trigger]
                        result@.contains(x) <==> forall|j: int|
                            0 <= j < i + 1 ==> self.by_tags@.contains_key(#[trigger] q[j])
                                && self.by_tags@[q[j]].contains(x) by {
                        if forall|j: int|
                            0 <= j < i + 1 ==> self.by_tags@.contains_key(#[trigger] q[j])
                                && self.by_tags@[q[j]].contains(x) {
                            assert(before.contains(x));
                            assert(self.by_tags@.contains_key(q[i as int]));
                        }
                    }
                },
                None => {
                    let empty: NameSet = SortedSet::new();
                    assert(empty@ =~= self@.matching_files(tags@)) by {
                        assert(tags@.contains(q[i as int]));
                    }
                    return empty;
                },
            }
            i += 1;
        }
        assert forall|x: Name| #[trigger] result@.contains(x) == self@.matching_files(tags@).contains(x) by {
            if result@.contains(x) {
                assert forall|t: Name| #[trigger] tags@.contains(t) implies self.by_tags@.contains_key(t)
                    && self.by_tags@[t].contains(x) by {
                    assert(q.to_set().contains(t));
                    let j = choose|j: int| 0 <= j < q.len() && q[j] == t;
                    assert(self.by_tags@.contains_key(q[j]));
                }
            }
            if self@.matching_files(tags@).contains(x) {
                assert forall|j: int| 0 <= j < n implies self.by_tags@.contains_key(#[trigger] q[j])
                    && self.by_tags@[q[j]].contains(x) by {
                    assert(q.to_set().contains(q[j]));
                }
            }
        }
        assert(result@ =~= self@.matching_files(tags@));
        result
    }
}

} // verus!
