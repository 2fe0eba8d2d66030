//! What the operations of a filesystem give, by what they are given.
use vstd::prelude::*;

use crate::inode::NodeView;
use crate::laws::consistent::consistent;
use crate::laws::filed::filed;
use crate::laws::inodes::inodes_in_order;
use crate::laws::reading::{
    directories_show_what_they_have, files_are_read_where_they_are, has_file, has_further_tag,
    is_answer, is_listing, listings_hold_what_is_there, lookups_find_what_is_there,
    only_known_files_are_opened,
};
use crate::listing::{
    dir_views, entry_views, page_of, skipped, told_pair, DirEntry, Entry, EntryView, Shown,
    ShownView,
};
use crate::names::Name;
use crate::path::FsPath;
use crate::tagfs::{told, Errno, TagFs, TagView, Target};
use crate::text::text_of;

verus! {

/// What is read of an inode: a known file is opened, looked at and read as a link
/// at its place. A directory has made up attributes, and cannot be opened as a file.
pub proof fn inodes_are_read_where_their_files_are(
    fs: TagFs,
    ino: u64,
    opened: Result<FsPath, Errno>,
    looked_at: Result<Target, Errno>,
    link: Result<FsPath, Errno>,
)
    requires
        filed(fs@.state),
        call_ensures(TagFs::open, (&fs, ino), opened),
        call_ensures(TagFs::getattr, (&fs, ino), looked_at),
        call_ensures(TagFs::readlink, (&fs, ino), link),
    ensures
        match fs@.node(ino) {
            Some(NodeView::File(bn)) => if fs@.state.files.contains_key(bn) {
                let place = fs@.root + fs@.state.files[bn].ffn;
                &&& opened matches Ok(p) && p@ == place
                &&& link matches Ok(p) && p@ == place
                &&& looked_at matches Ok(Target::File(p)) && p@ == place
            } else {
                &&& opened matches Err(e) && e == Errno::NoEnt
                &&& link matches Err(e) && e == Errno::NoEnt
                &&& looked_at matches Err(e) && e == Errno::NoEnt
            },
            Some(_) => {
                &&& opened matches Err(e) && e == Errno::IsDir
                &&& link matches Err(e) && e == Errno::Inval
                &&& looked_at matches Ok(Target::Dir)
            },
            None => {
                &&& opened matches Err(e) && e == Errno::NoEnt
                &&& link matches Err(e) && e == Errno::Inval
                &&& looked_at matches Err(e) && e == Errno::NoEnt
            },
        },
{
    only_known_files_are_opened(fs@, ino);
    if let Some(NodeView::File(bn)) = fs@.node(ino) {
        if fs@.state.files.contains_key(bn) {
            files_are_read_where_they_are(fs@, ino, bn);
        }
    }
}

/// Every inode that there is may be accessed, and every directory can be opened as
/// one.
pub proof fn directories_are_opened(
    fs: TagFs,
    ino: u64,
    accessed: Result<(), Errno>,
    opened: Result<(), Errno>,
)
    requires
        call_ensures(TagFs::access, (&fs, ino), accessed),
        call_ensures(TagFs::opendir, (&fs, ino), opened),
    ensures
        accessed is Ok <==> fs@.node(ino) is Some,
        accessed matches Err(e) ==> e == Errno::NoEnt,
        opened is Ok <==> fs@.node(ino) is Some && !(fs@.node(ino).unwrap() is File),
        opened matches Err(e) ==> e == Errno::NotDir,
{
}

/// A directory shows the tags and the files that it has.
pub proof fn names_in_a_directory_are_those_it_has(fs: TagFs, ino: u64, r: Result<Shown, Errno>)
    requires
        consistent(fs@.state),
        inodes_in_order(fs@.state.inodes),
        call_ensures(TagFs::names_in, (&fs, ino), r),
    ensures
        r is Ok <==> fs@.node(ino) is Some && !(fs@.node(ino).unwrap() is File),
        r matches Err(e) ==> e == Errno::NotDir,
        r matches Ok(sh) ==> {
            &&& forall|n: Name| #[trigger] sh.files@.contains(n) <==> has_file(fs@, ino, n)
            &&& forall|n: Name| #[trigger] sh.tags@.contains(n) <==> has_further_tag(fs@, ino, n)
        },
{
    directories_show_what_they_have(fs@, ino);
    if let Ok(sh) = r {
        let has = fs@.shown(ino).unwrap();
        assert(told(r) == Ok::<ShownView, Errno>(sh@));
        assert(sh@ == has);
        assert(sh.files@ == has.files && sh.tags@ == has.tags);
    }
}

/// The filesystem is as it is while requests come and go, with inodes left.
pub open spec fn in_use(fs: TagView) -> bool {
    &&& consistent(fs.state)
    &&& filed(fs.state)
    &&& inodes_in_order(fs.state.inodes)
    &&& fs.state.inodes.next < u64::MAX
}

/// A lookup finds what the directory has under the name.
pub proof fn lookups_are_answered(parent: u64, name: &[u8])
    ensures
        forall|fs: &mut TagFs, r: Result<(u64, Target), Errno>| #[trigger]
            call_ensures(TagFs::lookup, (fs, parent, name), r) && in_use(fs@) ==> is_answer(
                fs@,
                parent,
                text_of(name@),
                final(fs)@,
                told_pair(r),
            ),
{
    assert forall|fs: &mut TagFs, r: Result<(u64, Target), Errno>| #[trigger]
        call_ensures(TagFs::lookup, (fs, parent, name), r) && in_use(fs@) implies is_answer(
        fs@,
        parent,
        text_of(name@),
        final(fs)@,
        told_pair(r),
    ) by {
        lookups_find_what_is_there(fs@, parent, text_of(name@));
    }
}

/// The directory can be listed, and shows finitely many things.
pub open spec fn can_be_listed(fs: TagView, ino: u64) -> bool {
    &&& fs.can_list(ino)
    &&& fs.shown(ino) matches Ok(sh) ==> sh.tags.finite() && sh.files.finite()
}

/// A listing holds what the directory has. What is no directory is not listed.
pub proof fn listings_are_given(ino: u64)
    ensures
        forall|fs: &mut TagFs, r: Result<Vec<Entry>, Errno>| #[trigger]
            call_ensures(TagFs::list_dir, (fs, ino), r) && in_use(fs@) && can_be_listed(fs@, ino)
                ==> match r {
                Ok(v) => is_listing(fs@, ino, final(fs)@, entry_views(v@)),
                Err(e) => e == Errno::NotDir && final(fs)@ == fs@ && !(fs@.node(
                    ino,
                ) is Some && !(fs@.node(ino).unwrap() is File)),
            },
{
    assert forall|fs: &mut TagFs, r: Result<Vec<Entry>, Errno>| #[trigger]
        call_ensures(TagFs::list_dir, (fs, ino), r) && in_use(fs@) && can_be_listed(
            fs@,
            ino,
        ) implies match r {
        Ok(v) => is_listing(fs@, ino, final(fs)@, entry_views(v@)),
        Err(e) => e == Errno::NotDir && final(fs)@ == fs@ && !(fs@.node(ino) is Some && !(fs@.node(
            ino,
        ).unwrap() is File)),
    } by {
        directories_show_what_they_have(fs@, ino);
        if fs@.shown(ino) is Ok {
            listings_hold_what_is_there(fs@, ino);
        }
    }
}

/// The entries of a listing from some place on, each with the number of the one
/// that follows.
pub open spec fn is_rest_of_listing(
    before: TagView,
    ino: u64,
    after: TagView,
    offset: int,
    v: Seq<DirEntry>,
) -> bool {
    exists|es: Seq<EntryView>| #[trigger]
        is_listing(before, ino, after, es) && numbered_from(es, offset, v)
}

/// `v` holds the entries after the first `offset` ones, numbered from one.
pub open spec fn numbered_from(
    es: Seq<EntryView>,
    offset: int,
    v: Seq<DirEntry>,
) -> bool {
    let first: int = if offset < 0 {
        0
    } else {
        offset
    };
    &&& first <= es.len() ==> v.len() == es.len() - first
    &&& first > es.len() ==> v.len() == 0
    &&& forall|i: int|
        0 <= i < v.len() ==> (#[trigger] v[i]).entry@ == es[first + i] && v[i].offset == first + i
            + 1
}

/// A directory is read from some place on by its listing.
pub proof fn directories_are_read_in_parts(ino: u64, offset: i64)
    ensures
        forall|fs: &mut TagFs, r: Result<Vec<DirEntry>, Errno>| #[trigger]
            call_ensures(TagFs::readdir, (fs, ino, offset), r) && in_use(fs@) && can_be_listed(
                fs@,
                ino,
            ) ==> match r {
                Ok(v) => is_rest_of_listing(fs@, ino, final(fs)@, offset as int, v@),
                Err(e) => e == Errno::NotDir && final(fs)@ == fs@,
            },
{
    assert forall|fs: &mut TagFs, r: Result<Vec<DirEntry>, Errno>| #[trigger]
        call_ensures(TagFs::readdir, (fs, ino, offset), r) && in_use(fs@) && can_be_listed(
            fs@,
            ino,
        ) implies match r {
        Ok(v) => is_rest_of_listing(fs@, ino, final(fs)@, offset as int, v@),
        Err(e) => e == Errno::NotDir && final(fs)@ == fs@,
    } by {
        directories_show_what_they_have(fs@, ino);
        if fs@.shown(ino) is Ok {
            listings_hold_what_is_there(fs@, ino);
            let es = fs@.entries(ino).unwrap();
            if let Ok(v) = r {
                let views = dir_views(v@);
                let page = page_of(es, offset as int);
                assert(views == page);
                assert(views.len() == v@.len());
                let k = skipped(es.len() as int, offset as int);
                assert(page.len() == es.len() - k);
                assert forall|i: int| 0 <= i < page.len() implies #[trigger] page[i] == (
                    es[k + i],
                    k + i + 1,
                ) by {}
                assert forall|i: int| 0 <= i < v@.len() implies (#[trigger] v@[i]).entry@ == page[i].0
                    && v@[i].offset == page[i].1 by {
                    assert(views[i] == page[i]);
                }
                assert(numbered_from(es, offset as int, v@));
            }
        }
    }
}

} // verus!
