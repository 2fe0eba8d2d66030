//! What lookups, listings and reads give, by the files and tags that there are.
use vstd::prelude::*;

use crate::attr::Attr;
use crate::inode::{InodeView, NodeView, SpecialKind, ALL_INODE, ROOT_INODE, UNTAGGED_INODE};
use crate::laws::consistent::{consistent, matching_is_having_all_tags};
use crate::laws::disk::{lemma_full, on_disk, Item};
use crate::laws::filed::filed;
use crate::laws::inodes::{inodes_in_order, listing_keeps_order};
use crate::laws::views::{lemma_listed_dirs, lemma_listed_files, looked_up_inode_leads_there};
use crate::listing::{page_of, with_attrs, with_dirs, EntryView};
use crate::names::{lemma_sorted_names, sorted_names, Name, Path};
use crate::order::{name_before, Key};
use crate::scanner::ScanView;
use crate::tagfs::{Errno, TagView, TargetView};

verus! {

/// The directory has the file: a tag directory has each file with all of its tags,
/// `_all` has every file, `_untagged` has those without tags.
pub open spec fn has_file(fs: TagView, ino: u64, name: Name) -> bool {
    fs.state.files.contains_key(name) && match fs.node(ino) {
        Some(NodeView::Dir(tags)) => ino != ROOT_INODE && forall|t: Name| #[trigger]
            tags.contains(t) ==> fs.state.files[name].tags.contains(t),
        Some(NodeView::SpecialDir(SpecialKind::All)) => true,
        Some(NodeView::SpecialDir(SpecialKind::Untagged)) => forall|t: Name|
            !#[trigger] fs.state.files[name].tags.contains(t),
        _ => false,
    }
}

/// The directory has the tag: some known set of tags holds it with all the tags of
/// the directory, which does not have it already.
pub open spec fn has_further_tag(fs: TagView, ino: u64, name: Name) -> bool {
    match fs.node(ino) {
        Some(NodeView::Dir(tags)) => !tags.contains(name) && exists|k: Set<Name>| #[trigger]
            fs.state.tagdirs.contains_key(k) && k.contains(name) && tags.subset_of(k),
        _ => false,
    }
}

/// `ino` stands for the directory that `name` leads to in the directory `parent`.
pub open spec fn leads_on(before: TagView, parent: u64, name: Name, after: TagView, ino: u64) -> bool {
    before.node(parent) matches Some(NodeView::Dir(tags)) && after.node(ino) == Some(
        NodeView::Dir(tags.insert(name)),
    )
}

/// Only inodes are new, and those that there were stand for what they stood for.
pub open spec fn only_inodes_added(before: TagView, after: TagView) -> bool {
    &&& after.root == before.root
    &&& after.state.files == before.state.files
    &&& after.state.tagdirs == before.state.tagdirs
    &&& after.state.by_tags == before.state.by_tags
    &&& forall|i: u64|
        before.node(i) is Some ==> #[trigger] after.node(i) == before.node(i)
}

/// A file is opened, looked at and read as a link at the place where it is.
pub proof fn files_are_read_where_they_are(fs: TagView, ino: u64, bn: Name)
    requires
        filed(fs.state),
        fs.node(ino) == Some(NodeView::File(bn)),
        fs.state.files.contains_key(bn),
    ensures
        ({
            let place = fs.root + fs.state.files[bn].ffn;
            &&& fs.open_target(ino) == Ok::<Path, Errno>(place)
            &&& fs.link_target(ino) == Ok::<Path, Errno>(place)
            &&& fs.attr_target(ino) == Ok::<TargetView, Errno>(TargetView::File(place))
        }),
{
    lemma_full(fs, fs.state.files[bn].ffn);
}

/// A file that is opened holds the contents that go with its name.
pub proof fn opened_files_hold_their_contents(
    d: Map<Path, Item>,
    fs: TagView,
    contents: Map<Name, int>,
    ino: u64,
    bn: Name,
)
    requires
        on_disk(d, fs, contents),
        fs.node(ino) == Some(NodeView::File(bn)),
        fs.state.files.contains_key(bn),
    ensures
        fs.open_target(ino) matches Ok(p) && d.contains_key(p) && d[p] == Item::File(contents[bn]),
        fs.link_target(ino) == fs.open_target(ino),
        fs.attr_target(ino) matches Ok(TargetView::File(p)) && fs.open_target(ino) == Ok::<
            Path,
            Errno,
        >(p),
{
    files_are_read_where_they_are(fs, ino, bn);
}

/// What was looked up as a file is opened, looked at and read as a link at the
/// place that the lookup told.
pub proof fn looked_up_files_are_opened(fs: TagView, parent: u64, name: Name, ino: u64, place: Path)
    requires
        consistent(fs.state),
        inodes_in_order(fs.state.inodes),
        fs.state.inodes.next < u64::MAX,
        fs.lookup_result(parent, name) == Ok::<(u64, TargetView), Errno>(
            (ino, TargetView::File(place)),
        ),
    ensures
        ({
            let after = fs.after_lookup(parent, name);
            &&& after.open_target(ino) == Ok::<Path, Errno>(place)
            &&& after.link_target(ino) == Ok::<Path, Errno>(place)
            &&& after.attr_target(ino) == Ok::<TargetView, Errno>(TargetView::File(place))
        }),
{
    looked_up_inode_leads_there(fs, parent, name);
    matching_is_having_all_tags(fs.state, Set::empty());
}

/// What is not a known file is not opened or read as a link. Directories have
/// attributes.
pub proof fn only_known_files_are_opened(fs: TagView, ino: u64)
    ensures
        fs.node(ino) is None ==> {
            &&& fs.open_target(ino) == Err::<Path, Errno>(Errno::NoEnt)
            &&& fs.link_target(ino) == Err::<Path, Errno>(Errno::Inval)
            &&& fs.attr_target(ino) == Err::<TargetView, Errno>(Errno::NoEnt)
        },
        fs.node(ino) matches Some(NodeView::File(bn)) && !fs.state.files.contains_key(bn) ==> {
            &&& fs.open_target(ino) == Err::<Path, Errno>(Errno::NoEnt)
            &&& fs.link_target(ino) == Err::<Path, Errno>(Errno::NoEnt)
            &&& fs.attr_target(ino) == Err::<TargetView, Errno>(Errno::NoEnt)
        },
        fs.node(ino) is Some && !(fs.node(ino).unwrap() is File) ==> {
            &&& fs.open_target(ino) == Err::<Path, Errno>(Errno::IsDir)
            &&& fs.link_target(ino) == Err::<Path, Errno>(Errno::Inval)
            &&& fs.attr_target(ino) == Ok::<TargetView, Errno>(TargetView::Dir)
        },
{
}

/// A directory shows the files and the further tags that it has, and nothing else.
pub proof fn directories_show_what_they_have(fs: TagView, ino: u64)
    requires
        consistent(fs.state),
        inodes_in_order(fs.state.inodes),
    ensures
        match fs.node(ino) {
            Some(NodeView::Dir(_)) | Some(NodeView::SpecialDir(_)) => fs.shown(ino) matches Ok(sh) && {
                &&& forall|n: Name| #[trigger] sh.files.contains(n) <==> has_file(fs, ino, n)
                &&& forall|n: Name| #[trigger] sh.tags.contains(n) <==> has_further_tag(fs, ino, n)
            },
            _ => fs.shown(ino) is Err && fs.shown(ino)->Err_0 == Errno::NotDir,
        },
{
    if let Ok(sh) = fs.shown(ino) {
        let tags = fs.base_tags(ino);
        matching_is_having_all_tags(fs.state, tags);
        matching_is_having_all_tags(fs.state, Set::empty());
        assert forall|n: Name| #[trigger] sh.files.contains(n) <==> has_file(fs, ino, n) by {
            let own = fs.state.files[n].tags;
            if own == Set::<Name>::empty() {
                assert(forall|t: Name| !#[trigger] own.contains(t));
            }
            if forall|t: Name| !#[trigger] own.contains(t) {
                assert(own =~= Set::<Name>::empty());
            }
        }
        assert forall|n: Name| #[trigger] sh.tags.contains(n) <==> has_further_tag(fs, ino, n) by {}
    }
}

/// What a lookup gives: the special directories of the root, then the files, then
/// the tags that the directory has, with an inode that stands for what was found.
/// That inode is the only one that can be new.
pub open spec fn is_answer(
    fs: TagView,
    parent: u64,
    name: Name,
    after: TagView,
    found: Result<(u64, TargetView), Errno>,
) -> bool {
    &&& only_inodes_added(fs, after)
    &&& forall|i: u64| #[trigger]
        after.node(i) is Some && fs.node(i) is None ==> (found matches Ok((ino, _)) && ino == i)
    &&& if parent == ROOT_INODE && name == "_all"@ {
        found == Ok::<(u64, TargetView), Errno>((ALL_INODE, TargetView::Dir))
    } else if parent == ROOT_INODE && name == "_untagged"@ {
        found == Ok::<(u64, TargetView), Errno>((UNTAGGED_INODE, TargetView::Dir))
    } else if has_file(fs, parent, name) {
        found matches Ok((ino, target)) && after.node(ino) == Some(NodeView::File(name)) && target
            == TargetView::File(fs.root + fs.state.files[name].ffn)
    } else if has_further_tag(fs, parent, name) {
        found matches Ok((ino, target)) && target == TargetView::Dir && leads_on(
            fs,
            parent,
            name,
            after,
            ino,
        )
    } else {
        found == Err::<(u64, TargetView), Errno>(Errno::NoEnt) && after == fs
    }
}

/// A name that the directory has is found in it: the special directories of the
/// root, then files, then tags. Nothing else is found. The inode stands for what
/// was found, and is the only one that can be new.
pub proof fn lookups_find_what_is_there(fs: TagView, parent: u64, name: Name)
    requires
        consistent(fs.state),
        filed(fs.state),
        inodes_in_order(fs.state.inodes),
        fs.state.inodes.next < u64::MAX,
    ensures
        is_answer(
            fs,
            parent,
            name,
            fs.after_lookup(parent, name),
            fs.lookup_result(parent, name),
        ),
{
    looked_up_inode_leads_there(fs, parent, name);
    directories_show_what_they_have(fs, parent);
    matching_is_having_all_tags(fs.state, fs.base_tags(parent));
    matching_is_having_all_tags(fs.state, Set::empty());
    let after = fs.after_lookup(parent, name);
    assert forall|i: u64| fs.node(i) is Some implies #[trigger] after.node(i) == fs.node(i) by {
        assert(fs.state.inodes.nodes.contains_key(i));
    }
    if fs.state.files.contains_key(name) {
        lemma_full(fs, fs.state.files[name].ffn);
    }
    reveal_strlit("_all");
    reveal_strlit("_untagged");
    assert("_all"@.len() != "_untagged"@.len());
    if let Ok(sh) = fs.shown(parent) {
        assert(sh.files.contains(name) <==> has_file(fs, parent, name));
        assert(sh.tags.contains(name) <==> has_further_tag(fs, parent, name));
    }
}

/// How many entries a directory has before those of its tags and files.
pub open spec fn fixed_count(ino: u64) -> int {
    if ino == ROOT_INODE {
        4
    } else {
        2
    }
}

/// The entry is one of a tag or a file that the directory has, with an inode that
/// stands for it.
pub open spec fn entry_holds(before: TagView, ino: u64, after: TagView, e: EntryView) -> bool {
    if e.is_dir {
        has_further_tag(before, ino, e.name) && leads_on(before, ino, e.name, after, e.inode)
    } else {
        has_file(before, ino, e.name) && after.node(e.inode) == Some(NodeView::File(e.name))
    }
}

/// Two entries stand in order: tags before files, and each by name.
pub open spec fn entries_in_order(a: EntryView, b: EntryView) -> bool {
    if a.is_dir == b.is_dir {
        name_before(a.name, b.name)
    } else {
        a.is_dir
    }
}

/// Some entry has the name, and is a directory or not.
pub open spec fn has_entry(es: Seq<EntryView>, from: int, name: Name, is_dir: bool) -> bool {
    exists|i: int|
        from <= i < es.len() && (#[trigger] es[i]).name == name && es[i].is_dir == is_dir
}

/// What a listing gives: the directory itself, the root, in the root the two special
/// directories, and then every tag and every file that the directory has, once and
/// in order, each with an inode that stands for it.
pub open spec fn is_listing(fs: TagView, ino: u64, after: TagView, es: Seq<EntryView>) -> bool {
    let n = fixed_count(ino);
    &&& only_inodes_added(fs, after)
    &&& es.len() >= n
    &&& es[0] == (EntryView { inode: ino, name: "."@, is_dir: true })
    &&& es[1] == (EntryView { inode: ROOT_INODE, name: ".."@, is_dir: true })
    &&& ino == ROOT_INODE ==> es[2] == (EntryView {
        inode: ALL_INODE,
        name: "_all"@,
        is_dir: true,
    }) && es[3] == (EntryView { inode: UNTAGGED_INODE, name: "_untagged"@, is_dir: true })
    &&& forall|i: int| n <= i < es.len() ==> entry_holds(fs, ino, after, #[trigger] es[i])
    &&& forall|i: int, j: int|
        n <= i < j < es.len() ==> entries_in_order(#[trigger] es[i], #[trigger] es[j])
    &&& forall|name: Name| #[trigger]
        has_further_tag(fs, ino, name) ==> has_entry(es, n, name, true)
    &&& forall|name: Name| #[trigger] has_file(fs, ino, name) ==> has_entry(es, n, name, false)
}

proof fn lemma_node_kept(v: InodeView, w: InodeView, i: u64)
    requires
        v.ok(),
        w.ok(),
        v.dirs.submap_of(w.dirs),
        v.files.submap_of(w.files),
        v.nodes.contains_key(i),
    ensures
        w.nodes.contains_key(i),
        w.nodes[i] == v.nodes[i],
{
    match v.nodes[i] {
        NodeView::Dir(t) => {
            assert(v.dirs.dom().contains(t));
            assert(w.dirs.contains_key(t));
            assert(w.dirs[t] == i);
        },
        NodeView::File(f) => {
            assert(v.files.dom().contains(f));
            assert(w.files.contains_key(f));
            assert(w.files[f] == i);
        },
        NodeView::SpecialDir(_) => {},
    }
}

/// A listing holds the directory itself, the root, in the root the two special
/// directories, and then every tag and every file that the directory has, once and
/// in order, each with an inode that stands for it. It changes nothing else.
pub proof fn listings_hold_what_is_there(fs: TagView, ino: u64)
    requires
        consistent(fs.state),
        inodes_in_order(fs.state.inodes),
        fs.can_list(ino),
        fs.shown(ino) is Ok,
        fs.shown(ino).unwrap().tags.finite(),
        fs.shown(ino).unwrap().files.finite(),
    ensures
        fs.entries(ino) matches Ok(es) && is_listing(fs, ino, fs.listed(ino), es),
{
    let sh = fs.shown(ino).unwrap();
    let after = fs.listed(ino);
    let base = fs.base_tags(ino);
    let v = fs.state.inodes;
    let w = after.state.inodes;
    let tags = sorted_names(sh.tags);
    let files = sorted_names(sh.files);
    let es = fs.entries(ino).unwrap();
    let n = fixed_count(ino);
    directories_show_what_they_have(fs, ino);
    lemma_sorted_names(sh.tags);
    lemma_sorted_names(sh.files);
    listing_keeps_order(v, base, tags, files);
    lemma_listed_dirs(v, base, tags);
    lemma_listed_files(with_dirs(v, base, tags), files);
    assert forall|i: u64| fs.node(i) is Some implies #[trigger] after.node(i) == fs.node(i) by {
        lemma_node_kept(v, w, i);
    }
    let m = n + tags.len();
    assert(es.len() == m + files.len());
    assert forall|i: int| n <= i < m implies #[trigger] es[i] == after.tag_entry(base, tags[i - n]) by {}
    assert forall|i: int| m <= i < es.len() implies #[trigger] es[i] == after.file_entry(
        files[i - m],
    ) by {}
    assert forall|i: int| n <= i < es.len() implies entry_holds(fs, ino, after, #[trigger] es[i]) by {
        if i < m {
            let t = tags[i - n];
            assert(tags.to_set().contains(t));
            assert(sh.tags.contains(t));
            assert(w.dirs.contains_key(base.insert(t)));
        } else {
            let f = files[i - m];
            assert(files.to_set().contains(f));
            assert(sh.files.contains(f));
            assert(w.files.contains_key(f));
        }
    }
    assert forall|i: int, j: int| n <= i < j < es.len() implies entries_in_order(
        #[trigger] es[i],
        #[trigger] es[j],
    ) by {
        if j < m {
            assert(<String as Key>::before(tags[i - n], tags[j - n]));
        } else if i >= m {
            assert(<String as Key>::before(files[i - m], files[j - m]));
        }
    }
    assert forall|name: Name| #[trigger] has_further_tag(fs, ino, name) implies has_entry(
        es,
        n,
        name,
        true,
    ) by {
        assert(sh.tags.contains(name));
        assert(tags.to_set().contains(name));
        let k = choose|k: int| 0 <= k < tags.len() && tags[k] == name;
        assert(es[n + k].name == name && es[n + k].is_dir);
    }
    assert forall|name: Name| #[trigger] has_file(fs, ino, name) implies has_entry(
        es,
        n,
        name,
        false,
    ) by {
        assert(sh.files.contains(name));
        assert(files.to_set().contains(name));
        let k = choose|k: int| 0 <= k < files.len() && files[k] == name;
        assert(es[m + k].name == name && !es[m + k].is_dir);
    }
}

/// A directory that shows fewer than two to the sixty-second things can be listed
/// as long as as many inodes are left.
pub proof fn directories_can_be_listed(fs: TagView, ino: u64)
    requires
        fs.shown(ino) matches Ok(sh) ==> sh.tags.len() + sh.files.len() < 0x4000_0000_0000_0000,
        fs.state.inodes.next < 0x4000_0000_0000_0000,
    ensures
        fs.can_list(ino),
{
}

/// Listing from the start gives every entry, numbered from one. Going on with the
/// number of an entry gives what follows it.
pub proof fn listings_go_on_where_they_stopped<T>(es: Seq<T>, offset: int)
    ensures
        page_of(es, 0).len() == es.len(),
        forall|i: int| 0 <= i < es.len() ==> #[trigger] page_of(es, 0)[i] == (es[i], i + 1),
        offset <= 0 ==> page_of(es, offset) == page_of(es, 0),
        0 <= offset <= es.len() ==> page_of(es, offset) == page_of(es, 0).skip(offset),
        offset >= es.len() ==> page_of(es, offset).len() == 0,
        forall|i: int|
            0 <= i < es.len() ==> page_of(es, (#[trigger] page_of(es, 0)[i]).1) == page_of(
                es,
                0,
            ).skip(i + 1),
{
    if 0 <= offset <= es.len() {
        assert(page_of(es, offset) =~= page_of(es, 0).skip(offset));
    }
    assert forall|i: int| 0 <= i < es.len() implies page_of(
        es,
        (#[trigger] page_of(es, 0)[i]).1,
    ) == page_of(es, 0).skip(i + 1) by {
        assert(page_of(es, i + 1) =~= page_of(es, 0).skip(i + 1));
    }
}

/// Where all attributes are known, every entry is there with its own.
pub proof fn entries_have_their_attributes(es: Seq<EntryView>, attrs: Seq<Option<Attr>>)
    requires
        es.len() == attrs.len(),
        forall|i: int| 0 <= i < attrs.len() ==> (#[trigger] attrs[i]) is Some,
    ensures
        with_attrs(es, attrs).len() == es.len(),
        forall|i: int|
            0 <= i < es.len() ==> #[trigger] with_attrs(es, attrs)[i] == (
                es[i].inode,
                es[i].name,
                attrs[i].unwrap(),
            ),
    decreases es.len(),
{
    if es.len() > 0 {
        let fewer = attrs.drop_last();
        assert forall|i: int| 0 <= i < fewer.len() implies (#[trigger] fewer[i]) is Some by {
            assert(attrs[i] is Some);
        }
        entries_have_their_attributes(es.drop_last(), fewer);
        assert(attrs[es.len() - 1] is Some);
    }
}

/// An entry whose attributes are not known might as well not be there.
pub proof fn entries_without_attributes_do_not_matter(
    es: Seq<EntryView>,
    attrs: Seq<Option<Attr>>,
    i: int,
)
    requires
        es.len() == attrs.len(),
        0 <= i < es.len(),
        attrs[i] is None,
    ensures
        with_attrs(es, attrs) == with_attrs(es.remove(i), attrs.remove(i)),
    decreases es.len(),
{
    if i == es.len() - 1 {
        assert(es.remove(i) =~= es.drop_last());
        assert(attrs.remove(i) =~= attrs.drop_last());
    } else {
        entries_without_attributes_do_not_matter(es.drop_last(), attrs.drop_last(), i);
        assert(es.remove(i).drop_last() =~= es.drop_last().remove(i));
        assert(attrs.remove(i).drop_last() =~= attrs.drop_last().remove(i));
        assert(es.remove(i).last() == es.last());
        assert(attrs.remove(i).last() == attrs.last());
    }
}

/// Right after a scan the filesystem knows what the scan found, and there are
/// inodes for the root and the special directories alone.
pub proof fn filesystem_starts_with_its_scan(root: Path, scan: ScanView)
    ensures
        ({
            let fs = TagView::of_scan(root, scan);
            &&& fs.root == root
            &&& fs.state.files == scan.files
            &&& fs.state.tagdirs == scan.tagdirs
            &&& fs.state.by_tags == scan.by_tags
            &&& fs.node(ROOT_INODE) == Some(NodeView::Dir(Set::empty()))
            &&& fs.node(ALL_INODE) == Some(NodeView::SpecialDir(SpecialKind::All))
            &&& fs.node(UNTAGGED_INODE) == Some(NodeView::SpecialDir(SpecialKind::Untagged))
            &&& forall|i: u64| #[trigger]
                fs.node(i) is Some ==> i == ROOT_INODE || i == ALL_INODE || i == UNTAGGED_INODE
        }),
{
}

} // verus!
