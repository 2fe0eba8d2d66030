//! What each change of the source tree does to the state.
use vstd::prelude::*;

use crate::names::{Name, NameSet, Path};
use crate::path::FsPath;
use crate::scanner::{add_to_each, drop_from_each, touch_each, FileEntry};
use crate::sorted_set::lemma_take_set;
use crate::state::{path_from_names, swap_all, FsState};

verus! {

impl FsState {
    /// Whether the directory for these tags has to be made first.
    pub fn dir_is_missing(&self, tags: &NameSet) -> (r: bool)
        ensures
            r == self@.dir_is_missing(tags@),
    {
        !self.knows_dir(tags) && !tags.is_empty()
    }

    /// Whether a set of tags has a directory already.
    pub fn knows_dir(&self, tags: &NameSet) -> (r: bool)
        ensures
            r == self@.knows_dir(tags@),
    {
        match self.tagdirs.get(tags) {
            Some(dirs) => !dirs.is_empty(),
            None => false,
        }
    }

    /// The directory for files with these tags.
    pub fn dir_for_tags(&self, tags: &NameSet) -> (r: FsPath)
        ensures
            r@ == self@.dir_for_tags(tags@),
    {
        match self.tagdirs.get(tags) {
            Some(dirs) => {
                if !dirs.is_empty() {
                    let n = dirs.len();
                    assert(n > 0) by {
                        if n == 0 {
                            assert(dirs@ =~= Set::<Path>::empty());
                        }
                    }
                    return dirs.at(0).dup();
                }
            },
            None => {},
        }
        let mut names: Vec<String> = Vec::new();
        let n = tags.len();
        let mut i: usize = 0;
        while i < n
            invariant
                i <= n,
                n == tags.seq().len(),
                names@.len() == i,
                forall|j: int| 0 <= j < i ==> (#[trigger] names@[j])@ == tags.seq()[j],
            decreases n - i,
        {
            names.push(tags.at(i).clone());
            i += 1;
        }
        assert(names@.map_values(|s: String| s@) =~= tags.seq());
        path_from_names(&names)
    }

    /// Notes that the directory for these tags is there.
    pub fn record_dir(&mut self, tags: &NameSet)
        ensures
            final(self)@ == old(self)@.with_dir_for_tags(tags@),
    {
        if self.knows_dir(tags) {
            return;
        }
        let dir = self.dir_for_tags(tags);
        self.tagdirs.add(tags, dir);
        touch_each(&mut self.by_tags, tags);
    }

    /// Where the file `old_bn` goes when it is renamed.
    pub fn renamed_ffn(&self, old_bn: &String, new_bn: &String) -> (r: FsPath)
        requires
            self@.files.contains_key(old_bn@),
        ensures
            r@ == self@.renamed_ffn(old_bn@, new_bn@),
    {
        match self.files.get(old_bn) {
            Some(entry) => {
                let parent = match entry.ffn.parent() {
                    Some(p) => p,
                    None => FsPath::empty(),
                };
                parent.join_text(new_bn.as_str())
            },
            None => FsPath::empty(),
        }
    }

    /// Notes that the file `old_bn` was renamed.
    pub fn record_rename_file(&mut self, old_bn: &String, new_bn: &String)
        requires
            old(self)@.files.contains_key(old_bn@),
            old(self)@.inodes.next < u64::MAX,
        ensures
            final(self)@ == old(self)@.with_renamed_file(old_bn@, new_bn@),
    {
        let new_ffn = self.renamed_ffn(old_bn, new_bn);
        match self.files.remove(old_bn) {
            Some(entry) => {
                let FileEntry { ffn: _, tags } = entry;
                let n = tags.len();
                let ghost q = tags.seq();
                let mut i: usize = 0;
                assert(self.by_tags@ =~= swap_all(
                    old(self)@.by_tags,
                    q.take(0).to_set(),
                    old_bn@,
                    new_bn@,
                ));
                while i < n
                    invariant
                        i <= n,
                        n == q.len(),
                        q == tags.seq(),
                        q.no_duplicates(),
                        self.files@ == old(self)@.files.remove(old_bn@),
                        self.tagdirs@ == old(self)@.tagdirs,
                        self.inode_table@ == old(self)@.inodes,
                        self.by_tags@ == swap_all(
                            old(self)@.by_tags,
                            q.take(i as int).to_set(),
                            old_bn@,
                            new_bn@,
                        ),
                    decreases n - i,
                {
                    let tag = tags.at(i);
                    match self.by_tags.remove(tag) {
                        Some(mut set) => {
                            set.remove(old_bn);
                            set.insert(new_bn.clone());
                            self.by_tags.insert(tag.clone(), set);
                        },
                        None => {},
                    }
                    proof {
                        lemma_take_set(q, i as int);
                    }
                    i += 1;
                    assert(self.by_tags@ =~= swap_all(
                        old(self)@.by_tags,
                        q.take(i as int).to_set(),
                        old_bn@,
                        new_bn@,
                    ));
                }
                assert(q.take(n as int) =~= q);
                self.files.insert(new_bn.clone(), FileEntry { ffn: new_ffn, tags });
                self.inode_table.remove_file(old_bn);
                self.inode_table.get_or_alloc_file(new_bn);
            },
            None => {},
        }
    }

    /// Notes that the file `bn` was moved to `ffn` to change its tags.
    pub fn record_changed_tags(
        &mut self,
        bn: &String,
        tags_to_add: &NameSet,
        tags_to_remove: &NameSet,
        ffn: FsPath,
    )
        requires
            old(self)@.files.contains_key(bn@),
        ensures
            final(self)@ == old(self)@.with_changed_tags(
                bn@,
                tags_to_add@,
                tags_to_remove@,
                ffn@,
            ),
    {
        match self.files.remove(bn) {
            Some(entry) => {
                let FileEntry { ffn: _, mut tags } = entry;
                tags.extend(tags_to_add);
                tags.remove_all(tags_to_remove);
                self.files.insert(bn.clone(), FileEntry { ffn, tags });
                assert(self.files@ =~= old(self)@.with_changed_tags(
                    bn@,
                    tags_to_add@,
                    tags_to_remove@,
                    ffn@,
                ).files);
                add_to_each(&mut self.by_tags, tags_to_add, bn);
                drop_from_each(&mut self.by_tags, tags_to_remove, bn);
            },
            None => {},
        }
    }

    /// Notes that the file `bn` was deleted.
    pub fn record_unlink(&mut self, bn: &String)
        requires
            old(self)@.files.contains_key(bn@),
        ensures
            final(self)@ == old(self)@.without_file(bn@),
    {
        match self.files.remove(bn) {
            Some(entry) => {
                drop_from_each(&mut self.by_tags, &entry.tags, bn);
                self.inode_table.remove_file(bn);
            },
            None => {},
        }
    }

    /// Notes that a new file was made at `ffn`, and gives out its inode.
    pub fn record_create(&mut self, bn: &String, tags: NameSet, ffn: FsPath) -> (ino: u64)
        requires
            old(self)@.inodes.next < u64::MAX,
        ensures
            final(self)@ == old(self)@.with_new_file(bn@, tags@, ffn@),
            final(self)@.inodes.files.contains_key(bn@),
            ino == final(self)@.inodes.files[bn@],
    {
        add_to_each(&mut self.by_tags, &tags, bn);
        self.files.insert(bn.clone(), FileEntry { ffn, tags });
        self.inode_table.get_or_alloc_file(bn)
    }

    /// Notes that the first directory of a set of tags was removed.
    pub fn record_dir_gone(&mut self, tags: &NameSet)
        requires
            old(self)@.knows_dir(tags@),
        ensures
            final(self)@ == old(self)@.without_first_dir(tags@),
    {
        match self.tagdirs.remove(tags) {
            Some(mut dirs) => {
                let n = dirs.len();
                assert(n > 0) by {
                    if n == 0 {
                        assert(dirs.seq().to_set() =~= Set::<Path>::empty());
                    }
                }
                let first = dirs.at(0).dup();
                dirs.remove(&first);
                self.tagdirs.insert(tags.dup(), dirs);
            },
            None => {},
        }
        assert(self@ =~= old(self)@.without_first_dir(tags@));
    }

    /// Whether a set of tags occurs together with further ones.
    pub fn goes_further(&self, tags: &NameSet) -> (r: bool)
        ensures
            r == self@.goes_further(tags@),
    {
        let n = self.tagdirs.len();
        let ghost keys = self.tagdirs.keys();
        let mut i: usize = 0;
        while i < n
            invariant
                i <= n,
                n == keys.len(),
                keys == self.tagdirs.keys(),
                forall|j: int| 0 <= j < n ==> self@.tagdirs.contains_key(#[trigger] keys[j]),
                forall|j: int|
                    0 <= j < i ==> !(tags@.subset_of(#[trigger] keys[j]) && keys[j] != tags@),
            decreases n - i,
        {
            let key = self.tagdirs.key_at(i);
            if tags.is_subset(key) && !tags.same(key) {
                assert(self@.tagdirs.contains_key(keys[i as int]));
                return true;
            }
            i += 1;
        }
        proof {
            if self@.goes_further(tags@) {
                let k = choose|k: Set<Name>| #[trigger]
                    self@.tagdirs.contains_key(k) && tags@.subset_of(k) && k != tags@;
                assert(keys.to_set().contains(k));
                let j = choose|j: int| 0 <= j < keys.len() && keys[j] == k;
                assert(!(tags@.subset_of(keys[j]) && keys[j] != tags@));
            }
        }
        false
    }

    /// Notes that the directories of a set of tags were removed.
    pub fn record_rmdir(&mut self, tags: &NameSet)
        ensures
            final(self)@ == old(self)@.without_tagdir(tags@),
    {
        let _ = self.tagdirs.remove(tags);
        self.inode_table.remove_dir(tags);
    }
}

} // verus!
