//! What a directory holds, and what a name in it stands for.
use vstd::prelude::*;

use crate::attr::Attr;
use crate::inode::{
    InodeEntry, InodeView, NodeView, SpecialKind, ALL_INODE, ROOT_INODE, UNTAGGED_INODE,
};
use crate::names::{sorted_names, Name, NameSet};
use crate::sorted_set::SortedSet;
use crate::state::FsView;
use crate::tagfs::{
    told, Errno, TagFs, TagView, Target, TargetView, SPECIAL_ALL_NAME, SPECIAL_UNTAGGED_NAME,
};
use crate::text::{same_text, text, text_of};

verus! {

/// An entry of a directory.
#[derive(PartialEq, Eq, Debug)]
pub struct Entry {
    pub inode: u64,
    pub name: String,
    /// Whether it is a directory; else it is a file.
    pub is_dir: bool,
}

/// What an `Entry` says.
pub struct EntryView {
    pub inode: u64,
    pub name: Name,
    pub is_dir: bool,
}

impl View for Entry {
    type V = EntryView;

    open spec fn view(&self) -> EntryView {
        EntryView { inode: self.inode, name: self.name@, is_dir: self.is_dir }
    }
}

/// The entries of a list, by what they say.
pub open spec fn entry_views(v: Seq<Entry>) -> Seq<EntryView> {
    v.map_values(|e: Entry| e@)
}

/// The tags and the files that a directory shows.
pub struct Shown {
    pub tags: NameSet,
    pub files: NameSet,
}

/// What a `Shown` says.
#[verifier::ext_equal]
pub struct ShownView {
    pub tags: Set<Name>,
    pub files: Set<Name>,
}

impl View for Shown {
    type V = ShownView;

    open spec fn view(&self) -> ShownView {
        ShownView { tags: self.tags@, files: self.files@ }
    }
}

/// The inodes after each of the sets `base` with one of `names` got one.
pub open spec fn with_dirs(v: InodeView, base: Set<Name>, names: Seq<Name>) -> InodeView
    decreases names.len(),
{
    if names.len() == 0 {
        v
    } else {
        with_dirs(v, base, names.drop_last()).with_dir(base.insert(names.last()))
    }
}

/// The inodes after each of the files `names` got one.
pub open spec fn with_files(v: InodeView, names: Seq<Name>) -> InodeView
    decreases names.len(),
{
    if names.len() == 0 {
        v
    } else {
        with_files(v, names.drop_last()).with_file(names.last())
    }
}

impl TagView {
    /// The files of a special directory.
    pub open spec fn special_files(self, kind: SpecialKind) -> Set<Name> {
        match kind {
            SpecialKind::All => self.state.matching_files(Set::empty()),
            SpecialKind::Untagged => self.state.untagged_files(),
        }
    }

    /// What a directory shows: the tags that lead on from it and the files that
    /// have its tags. The root shows no files.
    pub open spec fn shown(self, ino: u64) -> Result<ShownView, Errno> {
        match self.node(ino) {
            Some(NodeView::Dir(tags)) => {
                Ok(
                    ShownView {
                        tags: self.state.avail_tags(tags),
                        files: if ino == ROOT_INODE {
                            Set::empty()
                        } else {
                            self.state.matching_files(tags)
                        },
                    },
                )
            },
            Some(NodeView::SpecialDir(kind)) => Ok(
                ShownView { tags: Set::empty(), files: self.special_files(kind) },
            ),
            _ => Err(Errno::NotDir),
        }
    }

    /// There are inodes and numbers enough for all that the directory shows.
    pub open spec fn can_list(self, ino: u64) -> bool {
        self.shown(ino) matches Ok(sh) ==> {
            &&& self.state.inodes.next + sh.tags.len() + sh.files.len() <= u64::MAX
            &&& sh.tags.len() + sh.files.len() < i64::MAX - 4
        }
    }

    /// The tags that lead to the directory `ino`.
    pub open spec fn base_tags(self, ino: u64) -> Set<Name> {
        match self.node(ino) {
            Some(NodeView::Dir(tags)) => tags,
            _ => Set::empty(),
        }
    }

    /// The filesystem after the directory `ino` was listed: all it shows has an
    /// inode.
    pub open spec fn listed(self, ino: u64) -> TagView {
        match self.shown(ino) {
            Ok(sh) => self.with(
                FsView {
                    inodes: with_files(
                        with_dirs(self.state.inodes, self.base_tags(ino), sorted_names(sh.tags)),
                        sorted_names(sh.files),
                    ),
                    ..self.state
                },
            ),
            Err(_) => self,
        }
    }

    /// The entries that every directory has, and those of the root.
    pub open spec fn fixed_entries(ino: u64) -> Seq<EntryView> {
        let dots = seq![
            EntryView { inode: ino, name: "."@, is_dir: true },
            EntryView { inode: ROOT_INODE, name: ".."@, is_dir: true },
        ];
        if ino == ROOT_INODE {
            dots + seq![
                EntryView { inode: ALL_INODE, name: SPECIAL_ALL_NAME@, is_dir: true },
                EntryView { inode: UNTAGGED_INODE, name: SPECIAL_UNTAGGED_NAME@, is_dir: true },
            ]
        } else {
            dots
        }
    }

    /// The entry of a tag in the directory with the tags `base`.
    pub open spec fn tag_entry(self, base: Set<Name>, name: Name) -> EntryView {
        EntryView { inode: self.state.inodes.dirs[base.insert(name)], name, is_dir: true }
    }

    /// The entry of a file.
    pub open spec fn file_entry(self, name: Name) -> EntryView {
        EntryView { inode: self.state.inodes.files[name], name, is_dir: false }
    }

    /// The entries of the directory `ino`: the fixed ones, the tags in order and
    /// the files in order.
    pub open spec fn entries(self, ino: u64) -> Result<Seq<EntryView>, Errno> {
        match self.shown(ino) {
            Ok(sh) => {
                let fs = self.listed(ino);
                let base = self.base_tags(ino);
                Ok(
                    Self::fixed_entries(ino) + sorted_names(sh.tags).map_values(
                        |n: Name| fs.tag_entry(base, n),
                    ) + sorted_names(sh.files).map_values(|n: Name| fs.file_entry(n)),
                )
            },
            Err(e) => Err(e),
        }
    }

    /// What `name` stands for in the directory `parent`. In the root the special
    /// directories come first; elsewhere the files come before the tags.
    pub open spec fn named(self, parent: u64, name: Name) -> Option<NodeView> {
        match self.node(parent) {
            Some(NodeView::Dir(tags)) => {
                if parent == ROOT_INODE && name == SPECIAL_ALL_NAME@ {
                    Some(NodeView::SpecialDir(SpecialKind::All))
                } else if parent == ROOT_INODE && name == SPECIAL_UNTAGGED_NAME@ {
                    Some(NodeView::SpecialDir(SpecialKind::Untagged))
                } else if parent != ROOT_INODE && self.state.matching_files(tags).contains(name)
                    && self.state.files.contains_key(name) && tags.subset_of(
                    self.state.files[name].tags,
                ) {
                    Some(NodeView::File(name))
                } else if self.state.avail_tags(tags).contains(name) {
                    Some(NodeView::Dir(tags.insert(name)))
                } else {
                    None
                }
            },
            Some(NodeView::SpecialDir(kind)) => {
                if self.special_files(kind).contains(name) {
                    Some(NodeView::File(name))
                } else {
                    None
                }
            },
            _ => None,
        }
    }

    /// The filesystem after `name` was looked up in `parent`: what was found has
    /// an inode.
    pub open spec fn after_lookup(self, parent: u64, name: Name) -> TagView {
        match self.named(parent, name) {
            Some(NodeView::Dir(tags)) => self.with(
                FsView { inodes: self.state.inodes.with_dir(tags), ..self.state },
            ),
            Some(NodeView::File(bn)) => self.with(
                FsView { inodes: self.state.inodes.with_file(bn), ..self.state },
            ),
            _ => self,
        }
    }

    /// The inode of what `name` stands for in `parent`, with the place that its
    /// attributes come from.
    pub open spec fn lookup_result(self, parent: u64, name: Name) -> Result<(u64, TargetView), Errno> {
        let fs = self.after_lookup(parent, name);
        match self.named(parent, name) {
            Some(NodeView::SpecialDir(SpecialKind::All)) => Ok((ALL_INODE, TargetView::Dir)),
            Some(NodeView::SpecialDir(SpecialKind::Untagged)) => Ok(
                (UNTAGGED_INODE, TargetView::Dir),
            ),
            Some(NodeView::Dir(tags)) => Ok((fs.state.inodes.dirs[tags], TargetView::Dir)),
            Some(NodeView::File(bn)) => Ok(
                (fs.state.inodes.files[bn], TargetView::File(self.full(self.state.files[bn].ffn))),
            ),
            None => Err(Errno::NoEnt),
        }
    }
}

/// An inode and a target, by what they say.
pub open spec fn told_pair(r: Result<(u64, Target), Errno>) -> Result<(u64, TargetView), Errno> {
    match r {
        Ok((ino, t)) => Ok((ino, t@)),
        Err(e) => Err(e),
    }
}

/// A list of entries, by what they say.
pub open spec fn told_entries(r: Result<Vec<Entry>, Errno>) -> Result<Seq<EntryView>, Errno> {
    match r {
        Ok(v) => Ok(entry_views(v@)),
        Err(e) => Err(e),
    }
}

/// An entry with its number in the directory.
#[derive(PartialEq, Eq, Debug)]
pub struct DirEntry {
    pub entry: Entry,
    pub offset: i64,
}

/// An entry with its number and its attributes.
#[derive(PartialEq, Eq, Debug)]
pub struct PlusEntry {
    pub inode: u64,
    pub name: String,
    pub offset: i64,
    pub attr: Attr,
}

/// Numbered entries, by what they say.
pub open spec fn dir_views(v: Seq<DirEntry>) -> Seq<(EntryView, int)> {
    v.map_values(|e: DirEntry| (e.entry@, e.offset as int))
}

/// Numbered entries with attributes, by what they say.
pub open spec fn plus_views(v: Seq<PlusEntry>) -> Seq<((u64, Name, Attr), int)> {
    v.map_values(|e: PlusEntry| ((e.inode, e.name@, e.attr), e.offset as int))
}

/// How many of `n` entries lie before an offset.
pub open spec fn skipped(n: int, offset: int) -> int {
    if offset <= 0 {
        0
    } else if offset < n {
        offset
    } else {
        n
    }
}

/// The entries from an offset on. Each has its number, which counts from one and
/// is the offset of the entry that follows.
pub open spec fn page_of<T>(entries: Seq<T>, offset: int) -> Seq<(T, int)> {
    let k = skipped(entries.len() as int, offset);
    Seq::new((entries.len() - k) as nat, |i: int| (entries[k + i], k + i + 1))
}

/// The entries whose attributes are known.
pub open spec fn with_attrs(
    entries: Seq<EntryView>,
    attrs: Seq<Option<Attr>>,
) -> Seq<(u64, Name, Attr)>
    decreases entries.len(),
{
    if entries.len() == 0 {
        seq![]
    } else {
        let before = with_attrs(entries.drop_last(), attrs.drop_last());
        match attrs.last() {
            Some(a) => before.push((entries.last().inode, entries.last().name, a)),
            None => before,
        }
    }
}

/// The entries from an offset on, with their numbers.
pub fn page(entries: &Vec<Entry>, offset: i64) -> (r: Vec<DirEntry>)
    requires
        entries@.len() < i64::MAX,
    ensures
        dir_views(r@) == page_of(entry_views(entries@), offset as int),
{
    let n = entries.len();
    let ghost es = entry_views(entries@);
    let ghost k = skipped(n as int, offset as int);
    let mut i: usize = if offset <= 0 {
        0
    } else if (offset as u64) < n as u64 {
        offset as usize
    } else {
        n
    };
    let mut v: Vec<DirEntry> = Vec::new();
    assert(dir_views(v@) =~= page_of(es, offset as int).take(0));
    while i < n
        invariant
            k <= i <= n,
            n == entries@.len(),
            n < i64::MAX,
            k == skipped(n as int, offset as int),
            es == entry_views(entries@),
            dir_views(v@) == page_of(es, offset as int).take(i - k),
        decreases n - i,
    {
        let e = &entries[i];
        let ghost had = dir_views(v@);
        v.push(
            DirEntry {
                entry: Entry { inode: e.inode, name: e.name.clone(), is_dir: e.is_dir },
                offset: i as i64 + 1,
            },
        );
        i += 1;
        assert(dir_views(v@) =~= had.push((es[i - 1], i as int)));
        assert(dir_views(v@) =~= page_of(es, offset as int).take(i - k));
    }
    assert(page_of(es, offset as int).take(n - k) =~= page_of(es, offset as int));
    v
}

/// The entries from an offset on, with their attributes. One without attributes
/// is left out and does not count.
pub fn readdirplus(entries: &Vec<Entry>, attrs: &Vec<Option<Attr>>, offset: u64) -> (r: Vec<
    PlusEntry,
>)
    requires
        entries@.len() == attrs@.len(),
        entries@.len() < i64::MAX,
    ensures
        plus_views(r@) == page_of(with_attrs(entry_views(entries@), attrs@), offset as int),
{
    let n = entries.len();
    let ghost es = entry_views(entries@);
    let ghost all = with_attrs(es, attrs@);
    let mut count: usize = 0;
    let mut v: Vec<PlusEntry> = Vec::new();
    let mut i: usize = 0;
    let ghost page = page_of(Seq::<(u64, Name, Attr)>::empty(), offset as int);
    assert(plus_views(v@) =~= page);
    assert(es.take(0) =~= Seq::<EntryView>::empty());
    while i < n
        invariant
            i <= n,
            n == entries@.len(),
            n == attrs@.len(),
            n < i64::MAX,
            es == entry_views(entries@),
            count <= i,
            count == with_attrs(es.take(i as int), attrs@.take(i as int)).len(),
            plus_views(v@) == page_of(
                with_attrs(es.take(i as int), attrs@.take(i as int)),
                offset as int,
            ),
        decreases n - i,
    {
        let e = &entries[i];
        let ghost had = plus_views(v@);
        let ghost before = with_attrs(es.take(i as int), attrs@.take(i as int));
        let ghost after = with_attrs(es.take(i + 1), attrs@.take(i + 1));
        proof {
            assert(es.take(i + 1).drop_last() =~= es.take(i as int));
            assert(attrs@.take(i + 1).drop_last() =~= attrs@.take(i as int));
            assert(es.take(i + 1).last() == e@);
            assert(attrs@.take(i + 1).last() == attrs@[i as int]);
        }
        match attrs[i] {
            Some(attr) => {
                if count as u64 >= offset {
                    v.push(
                        PlusEntry {
                            inode: e.inode,
                            name: e.name.clone(),
                            offset: count as i64 + 1,
                            attr,
                        },
                    );
                    assert(plus_views(v@) =~= had.push(
                        ((e.inode, e.name@, attr), count as int + 1),
                    ));
                }
                count += 1;
            },
            None => {},
        }
        assert(plus_views(v@) =~= page_of(after, offset as int));
        i += 1;
    }
    assert(es.take(n as int) =~= es);
    assert(attrs@.take(n as int) =~= attrs@);
    v
}

fn fixed_entries(inode: u64) -> (r: Vec<Entry>)
    ensures
        entry_views(r@) == TagView::fixed_entries(inode),
{
    let mut v: Vec<Entry> = Vec::new();
    v.push(Entry { inode, name: ".".to_owned(), is_dir: true });
    v.push(Entry { inode: ROOT_INODE, name: "..".to_owned(), is_dir: true });
    if inode == ROOT_INODE {
        v.push(Entry { inode: ALL_INODE, name: SPECIAL_ALL_NAME.to_owned(), is_dir: true });
        v.push(Entry { inode: UNTAGGED_INODE, name: SPECIAL_UNTAGGED_NAME.to_owned(), is_dir: true });
    }
    assert(entry_views(v@) =~= TagView::fixed_entries(inode));
    v
}

impl TagFs {
    fn special_files(&self, kind: SpecialKind) -> (r: NameSet)
        ensures
            r@ == self@.special_files(kind),
    {
        match kind {
            SpecialKind::All => {
                let none: NameSet = SortedSet::new();
                self.state.get_matching_files(&none)
            },
            SpecialKind::Untagged => self.state.get_untagged_files(),
        }
    }

    /// The tags and the files that a directory shows.
    pub fn names_in(&self, inode: u64) -> (r: Result<Shown, Errno>)
        ensures
            told(r) == self@.shown(inode),
    {
        match self.state.inode_table.get(inode) {
            Some(InodeEntry::Dir(tags)) => {
                let avail = self.state.get_avail_tags(tags);
                let files = if inode == ROOT_INODE {
                    SortedSet::new()
                } else {
                    self.state.get_matching_files(tags)
                };
                Ok(Shown { tags: avail, files })
            },
            Some(InodeEntry::SpecialDir(kind)) => Ok(
                Shown { tags: SortedSet::new(), files: self.special_files(*kind) },
            ),
            _ => Err(Errno::NotDir),
        }
    }

    /// Whether there are inodes and numbers enough for all that the directory
    /// shows.
    pub fn can_list(&self, inode: u64) -> (r: bool)
        ensures
            r == self@.can_list(inode),
    {
        match self.names_in(inode) {
            Ok(sh) => {
                let n = sh.tags.len() as u128 + sh.files.len() as u128;
                n <= self.state.inode_table.room() as u128 && n < i64::MAX as u128 - 4
            },
            Err(_) => true,
        }
    }

    /// The entries of a directory from `offset` on.
    pub fn readdir(&mut self, inode: u64, offset: i64) -> (r: Result<Vec<DirEntry>, Errno>)
        requires
            old(self)@.can_list(inode),
        ensures
            final(self)@ == old(self)@.listed(inode),
            match r {
                Ok(v) => old(self)@.entries(inode) matches Ok(es) && dir_views(v@) == page_of(
                    es,
                    offset as int,
                ),
                Err(e) => old(self)@.entries(inode) == Err::<Seq<EntryView>, Errno>(e),
            },
    {
        match self.list_dir(inode) {
            Ok(entries) => Ok(page(&entries, offset)),
            Err(e) => Err(e),
        }
    }

    /// Looks a name up in a directory.
    pub fn lookup(&mut self, parent: u64, name: &[u8]) -> (r: Result<(u64, Target), Errno>)
        requires
            old(self)@.state.inodes.next < u64::MAX,
        ensures
            final(self)@ == old(self)@.after_lookup(parent, text_of(name@)),
            told_pair(r) == old(self)@.lookup_result(parent, text_of(name@)),
    {
        let name_str = text(name);
        match self.state.inode_table.get(parent) {
            Some(InodeEntry::Dir(tags)) => {
                let is_root = parent == ROOT_INODE;
                if is_root && same_text(name_str.as_str(), SPECIAL_ALL_NAME) {
                    return Ok((ALL_INODE, Target::Dir));
                }
                if is_root && same_text(name_str.as_str(), SPECIAL_UNTAGGED_NAME) {
                    return Ok((UNTAGGED_INODE, Target::Dir));
                }
                if !is_root && self.state.get_matching_files(tags).contains(&name_str) {
                    if let Some(entry) = self.state.files.get(&name_str) {
                        if tags.is_subset(&entry.tags) {
                            return self.found_file(&name_str);
                        }
                    }
                }
                if self.state.get_avail_tags(tags).contains(&name_str) {
                    let mut child = tags.dup();
                    child.insert(name_str);
                    let ino = self.state.inode_table.get_or_alloc_dir(&child);
                    return Ok((ino, Target::Dir));
                }
                Err(Errno::NoEnt)
            },
            Some(InodeEntry::SpecialDir(kind)) => {
                if self.special_files(*kind).contains(&name_str) {
                    self.found_file(&name_str)
                } else {
                    Err(Errno::NoEnt)
                }
            },
            _ => Err(Errno::NoEnt),
        }
    }

    /// The entries of a directory.
    pub fn list_dir(&mut self, inode: u64) -> (r: Result<Vec<Entry>, Errno>)
        requires
            old(self)@.can_list(inode),
        ensures
            final(self)@ == old(self)@.listed(inode),
            told_entries(r) == old(self)@.entries(inode),
            r matches Ok(v) ==> v@.len() < i64::MAX,
    {
        let sh = match self.names_in(inode) {
            Ok(sh) => sh,
            Err(e) => {
                return Err(e);
            },
        };
        let base = match self.state.inode_table.get(inode) {
            Some(InodeEntry::Dir(tags)) => tags.dup(),
            _ => SortedSet::new(),
        };
        let mut entries = fixed_entries(inode);
        let ghost fixed = TagView::fixed_entries(inode);
        let n = sh.tags.len();
        let m = sh.files.len();
        let ghost v = self@.state.inodes;
        let ghost tags = sh.tags.seq();
        let ghost files = sh.files.seq();
        let mut i: usize = 0;
        assert(entry_views(entries@) =~= fixed + Seq::<EntryView>::empty());
        assert(tags.take(0).map_values(|n: Name| self@.tag_entry(base@, n)) =~= Seq::<
            EntryView,
        >::empty());
        while i < n
            invariant
                i <= n,
                n == tags.len(),
                tags == sh.tags.seq(),
                v.next + n + m <= u64::MAX,
                self@.root == old(self)@.root,
                self@.state == (FsView {
                    inodes: with_dirs(v, base@, tags.take(i as int)),
                    ..old(self)@.state
                }),
                self@.state.inodes.next <= v.next + i,
                forall|j: int| 0 <= j < i ==> self@.state.inodes.dirs.contains_key(
                    base@.insert(#[trigger] tags[j]),
                ),
                entry_views(entries@) == fixed + tags.take(i as int).map_values(
                    |n: Name| self@.tag_entry(base@, n),
                ),
            decreases n - i,
        {
            let ghost before = self@;
            let ghost had = entry_views(entries@);
            let mut child = base.dup();
            child.insert(sh.tags.at(i).clone());
            let ino = self.state.inode_table.get_or_alloc_dir(&child);
            let name = sh.tags.at(i).clone();
            entries.push(Entry { inode: ino, name, is_dir: true });
            proof {
                let t = tags.take(i + 1);
                assert(t.drop_last() =~= tags.take(i as int));
                assert(t.last() == tags[i as int]);
                let f = |n: Name| before.tag_entry(base@, n);
                let g = |n: Name| self@.tag_entry(base@, n);
                assert(entry_views(entries@) =~= had.push(self@.tag_entry(base@, tags[i as int])));
                assert(t.map_values(g) =~= tags.take(i as int).map_values(f).push(
                    self@.tag_entry(base@, tags[i as int]),
                ));
                assert(entry_views(entries@) =~= fixed + t.map_values(g));
            }
            i += 1;
        }
        assert(tags.take(n as int) =~= tags);
        let ghost mid = self@;
        let ghost head = entry_views(entries@);
        let ghost v = self@.state.inodes;
        let mut i: usize = 0;
        assert(files.take(0).map_values(|n: Name| self@.file_entry(n)) =~= Seq::<
            EntryView,
        >::empty());
        assert(head =~= head + Seq::<EntryView>::empty());
        while i < m
            invariant
                i <= m,
                m == files.len(),
                files == sh.files.seq(),
                v.next + m <= u64::MAX,
                self@.root == old(self)@.root,
                v.dirs == mid.state.inodes.dirs,
                self@.state == (FsView {
                    inodes: with_files(v, files.take(i as int)),
                    ..old(self)@.state
                }),
                self@.state.inodes.dirs == v.dirs,
                self@.state.inodes.next <= v.next + i,
                forall|j: int| 0 <= j < i ==> self@.state.inodes.files.contains_key(
                    #[trigger] files[j],
                ),
                entry_views(entries@) == head + files.take(i as int).map_values(
                    |n: Name| self@.file_entry(n),
                ),
            decreases m - i,
        {
            let ghost before = self@;
            let ghost had = entry_views(entries@);
            let ino = self.state.inode_table.get_or_alloc_file(sh.files.at(i));
            let name = sh.files.at(i).clone();
            entries.push(Entry { inode: ino, name, is_dir: false });
            proof {
                let t = files.take(i + 1);
                assert(t.drop_last() =~= files.take(i as int));
                assert(t.last() == files[i as int]);
                let f = |n: Name| before.file_entry(n);
                let g = |n: Name| self@.file_entry(n);
                assert(entry_views(entries@) =~= had.push(self@.file_entry(files[i as int])));
                assert(t.map_values(g) =~= files.take(i as int).map_values(f).push(
                    self@.file_entry(files[i as int]),
                ));
                assert(entry_views(entries@) =~= head + t.map_values(g));
            }
            i += 1;
        }
        assert(files.take(m as int) =~= files);
        assert(tags.map_values(|n: Name| self@.tag_entry(base@, n)) =~= tags.map_values(
            |n: Name| mid.tag_entry(base@, n),
        ));
        Ok(entries)
    }

    fn found_file(&mut self, bn: &String) -> (r: Result<(u64, Target), Errno>)
        requires
            old(self)@.state.inodes.next < u64::MAX,
            old(self)@.state.files.contains_key(bn@),
        ensures
            final(self)@ == old(self)@.with(
                (FsView {
                    inodes: old(self)@.state.inodes.with_file(bn@),
                    ..old(self)@.state
                }),
            ),
            told_pair(r) == Ok::<(u64, TargetView), Errno>(
                (
                    final(self)@.state.inodes.files[bn@],
                    TargetView::File(old(self)@.full(old(self)@.state.files[bn@].ffn)),
                ),
            ),
    {
        let ino = self.state.inode_table.get_or_alloc_file(bn);
        match self.resolve_file_path(bn) {
            Ok(p) => Ok((ino, Target::File(p))),
            Err(e) => Err(e),
        }
    }
}

} // verus!
