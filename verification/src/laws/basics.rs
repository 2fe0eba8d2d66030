//! The small parts that requests are made of.
use vstd::prelude::*;

use crate::inode::{NodeView, SpecialKind, ROOT_INODE};
use crate::laws::disk::lemma_full;
use crate::laws::filed::filed;
use crate::names::{Name, Path};
use crate::path::{is_name, DOT, SLASH};
use crate::scanner::{add_all, drop_all, file_tags, name_tags, touch_all};
use crate::sorted_map::{added, dropped, touched};
use crate::state::{swap_all, FsView};
use crate::tagfs::{Errno, TagView};
use crate::text::text_of;

verus! {

/// A component is a name unless it is empty, has a slash, or is one or two dots.
pub proof fn names_are_components(c: Seq<u8>)
    ensures
        is_name(c) <==> c.len() > 0 && !c.contains(SLASH) && c != seq![DOT] && c != seq![DOT, DOT],
{
}

/// The tags of a directory are the texts of the names on its path. Those of a file
/// are the tags of the directory that it is in.
pub proof fn names_on_the_way_are_tags(p: Path, c: Seq<u8>)
    ensures
        name_tags(Seq::empty()) == Set::<Name>::empty(),
        is_name(c) ==> name_tags(p.push(c)) == name_tags(p).insert(text_of(c)),
        !is_name(c) ==> name_tags(p.push(c)) == name_tags(p),
        is_name(c) ==> file_tags(p.push(c)) == name_tags(p),
        file_tags(Seq::empty()) == Set::<Name>::empty(),
{
    assert(name_tags(Seq::empty()) =~= Set::<Name>::empty());
    let q = p.push(c);
    assert forall|t: Name| #[trigger] name_tags(q).contains(t) <==> name_tags(p).contains(t) || (
    is_name(c) && text_of(c) == t) by {
        if name_tags(q).contains(t) {
            let i = choose|i: int| 0 <= i < q.len() && is_name(#[trigger] q[i]) && text_of(q[i]) == t;
            if i < p.len() {
                assert(is_name(p[i]) && text_of(p[i]) == t);
            }
        }
        if name_tags(p).contains(t) {
            let i = choose|i: int| 0 <= i < p.len() && is_name(#[trigger] p[i]) && text_of(p[i]) == t;
            assert(is_name(q[i]) && text_of(q[i]) == t);
        }
        if is_name(c) && text_of(c) == t {
            assert(is_name(q[p.len() as int]) && text_of(q[p.len() as int]) == t);
        }
    }
    if is_name(c) {
        assert(name_tags(q) =~= name_tags(p).insert(text_of(c)));
        assert(c != seq![SLASH]) by {
            if c == seq![SLASH] {
                assert(c[0] == SLASH);
                assert(c.contains(c[0]));
            }
        }
        assert(q.drop_last() =~= p);
    } else {
        assert(name_tags(q) =~= name_tags(p));
    }
}

/// A tag directory has its tags, the root and `_untagged` have none, and in `_all`
/// a file has its own. Nothing else is a directory.
pub proof fn directories_have_their_tags(fs: TagView, ino: u64, bn: Name)
    ensures
        match fs.node(ino) {
            Some(NodeView::Dir(tags)) => fs.tags_at(ino, bn) == Some(
                if ino == ROOT_INODE {
                    Set::empty()
                } else {
                    tags
                },
            ),
            Some(NodeView::SpecialDir(SpecialKind::All)) => fs.tags_at(ino, bn) == Some(
                if fs.state.files.contains_key(bn) {
                    fs.state.files[bn].tags
                } else {
                    Set::empty()
                },
            ),
            Some(NodeView::SpecialDir(SpecialKind::Untagged)) => fs.tags_at(ino, bn) == Some(
                Set::<Name>::empty(),
            ),
            _ => fs.tags_at(ino, bn) is None,
        },
        fs.state.files.contains_key(bn) ==> fs.tags_of(bn) == fs.state.files[bn].tags,
        !fs.state.files.contains_key(bn) ==> fs.tags_of(bn) == Set::<Name>::empty(),
{
}

/// A known file is below the top of the source tree, at its place. There is no
/// other file.
pub proof fn known_files_are_below_the_top(fs: TagView, bn: Name)
    requires
        filed(fs.state),
    ensures
        fs.state.files.contains_key(bn) ==> fs.file_path(bn) == Ok::<Path, Errno>(
            fs.root + fs.state.files[bn].ffn,
        ),
        !fs.state.files.contains_key(bn) ==> fs.file_path(bn) == Err::<Path, Errno>(Errno::NoEnt),
{
    if fs.state.files.contains_key(bn) {
        lemma_full(fs, fs.state.files[bn].ffn);
    }
}

/// A directory is missing where there are tags and none of their directories is
/// known.
pub proof fn directories_are_missing_where_none_is_known(s: FsView, tags: Set<Name>)
    ensures
        s.knows_dir(tags) <==> s.tagdirs.contains_key(tags) && exists|p: Path|
            s.tagdirs[tags].contains(p),
        s.dir_is_missing(tags) <==> !s.knows_dir(tags) && exists|t: Name| tags.contains(t),
{
    if s.tagdirs.contains_key(tags) {
        if forall|p: Path| !s.tagdirs[tags].contains(p) {
            assert(s.tagdirs[tags] =~= Set::<Path>::empty());
        }
    }
    if forall|t: Name| !tags.contains(t) {
        assert(tags =~= Set::<Name>::empty());
    }
}

/// `item` is in the set of `key`.
pub open spec fn in_set<A, B>(m: Map<A, Set<B>>, key: A, item: B) -> bool {
    m.contains_key(key) && m[key].contains(item)
}

/// An item that is added to the set of a key, or dropped from it, changes that set
/// alone. A key that is touched has a set.
pub proof fn sets_of_keys_change_one_by_one<A, B>(m: Map<A, Set<B>>, key: A, item: B)
    ensures
        forall|k: A| #[trigger]
            added(m, key, item).contains_key(k) <==> m.contains_key(k) || k == key,
        forall|k: A, x: B|
            in_set(#[trigger] added(m, key, item), k, x) <==> #[trigger] in_set(m, k, x) || (k == key
                && x == item),
        forall|k: A| #[trigger] dropped(m, key, item).contains_key(k) <==> m.contains_key(k),
        forall|k: A, x: B|
            in_set(#[trigger] dropped(m, key, item), k, x) <==> #[trigger] in_set(m, k, x) && !(k
                == key && x == item),
        forall|k: A| #[trigger] touched(m, key).contains_key(k) <==> m.contains_key(k) || k == key,
        forall|k: A, x: B|
            in_set(#[trigger] touched(m, key), k, x) <==> #[trigger] in_set(m, k, x),
{
}

/// A name that is added to the sets of some tags, dropped from them or replaced in
/// them changes these sets alone.
pub proof fn sets_of_tags_change_together(
    m: Map<Name, Set<Name>>,
    tags: Set<Name>,
    bn: Name,
    new: Name,
)
    ensures
        forall|t: Name| #[trigger]
            add_all(m, tags, bn).contains_key(t) <==> m.contains_key(t) || tags.contains(t),
        forall|t: Name, n: Name|
            in_set(#[trigger] add_all(m, tags, bn), t, n) <==> #[trigger] in_set(m, t, n) || (
            tags.contains(t) && n == bn),
        forall|t: Name| #[trigger] drop_all(m, tags, bn).contains_key(t) <==> m.contains_key(t),
        forall|t: Name, n: Name|
            in_set(#[trigger] drop_all(m, tags, bn), t, n) <==> #[trigger] in_set(m, t, n) && !(
            tags.contains(t) && n == bn),
        forall|t: Name| #[trigger]
            touch_all(m, tags).contains_key(t) <==> m.contains_key(t) || tags.contains(t),
        forall|t: Name, n: Name|
            in_set(#[trigger] touch_all(m, tags), t, n) <==> #[trigger] in_set(m, t, n),
        forall|t: Name| #[trigger] swap_all(m, tags, bn, new).contains_key(t) <==> m.contains_key(t),
        forall|t: Name, n: Name|
            in_set(#[trigger] swap_all(m, tags, bn, new), t, n) <==> if m.contains_key(t)
                && tags.contains(t) {
                n == new || (n != bn && m[t].contains(n))
            } else {
                #[trigger] in_set(m, t, n)
            },
{
}

} // verus!
