//! Attributes, and what changes of them do.
use vstd::prelude::*;

use crate::attr::{
    dir_attr_of, is_file_attr, kind_of, Attr, AttrChange, FileKind, SetAttr, Stat, Time,
};

verus! {

/// The time is the one that the system told, or the start of the epoch where it
/// told none.
pub open spec fn is_time(t: Time, told: Option<Time>) -> bool {
    match told {
        Some(at) => t == at,
        None => t.sec == 0 && t.nsec == 0,
    }
}

/// The number is the wide one, or differs from it by the upper half.
pub open spec fn is_lower_half(n: u32, wide: int) -> bool {
    &&& 0 <= wide <= u32::MAX ==> n == wide
    &&& (wide - n) % 0x1_0000_0000 == 0
}

/// The attributes of a file are those that the system told of it, under the number
/// of its inode.
pub proof fn files_have_the_attributes_told(a: Attr, ino: u64, s: Stat)
    requires
        is_file_attr(a, ino, s),
    ensures
        a.ino == ino,
        a.size == s.size,
        a.blocks == s.blocks,
        a.uid == s.uid,
        a.gid == s.gid,
        a.kind == FileKind::Symlink <==> s.symlink,
        a.kind == FileKind::RegularFile <==> !s.symlink,
        is_time(a.atime, s.atime),
        is_time(a.mtime, s.mtime),
        a.ctime.sec == s.ctime_sec,
        is_lower_half(a.ctime.nsec, s.ctime_nsec as int),
        is_lower_half(a.nlink, s.nlink as int),
        is_lower_half(a.rdev, s.rdev as int),
        is_lower_half(a.blksize, s.blksize as int),
        a.perm as u32 == s.mode & 0o7777,
{
    let mode: u32 = s.mode;
    assert(mode & 0o7777 == mode % 0o10000) by (bit_vector);
}

/// A directory looks like one of the user that anyone can enter and nobody else can
/// write.
pub proof fn directories_have_made_up_attributes(ino: u64, uid: u32, gid: u32, now: Time)
    ensures
        ({
            let a = dir_attr_of(ino, uid, gid, now);
            &&& a.ino == ino
            &&& a.kind == FileKind::Directory
            &&& a.perm == 0o755
            &&& a.uid == uid && a.gid == gid
            &&& a.atime == now && a.mtime == now && a.ctime == now
            &&& a.nlink == 2
            &&& a.size == 0 && a.blocks == 0 && a.rdev == 0
            &&& a.blksize == 4096
        }),
{
}

/// A file is a link exactly if the system says so.
pub proof fn links_are_told_from_files(symlink: Option<bool>)
    ensures
        kind_of(symlink) == FileKind::Symlink <==> symlink == Some(true),
        kind_of(symlink) == FileKind::RegularFile <==> symlink != Some(true),
{
}

/// When a change is made: mode, owners, size, times.
pub open spec fn turn(c: AttrChange) -> int {
    match c {
        AttrChange::Chmod(_) => 0,
        AttrChange::Chown(_, _) => 1,
        AttrChange::Truncate(_) => 2,
        AttrChange::Times(_, _) => 3,
    }
}

/// The change is asked for. A number that is not given is the largest one, and a
/// size counts as a signed number with the same bits.
pub open spec fn is_asked_for(a: SetAttr, c: AttrChange) -> bool {
    match c {
        AttrChange::Chmod(mode) => a.mode == Some(mode),
        AttrChange::Chown(uid, gid) => {
            &&& a.uid is Some || a.gid is Some
            &&& a.uid is Some ==> a.uid == Some(uid)
            &&& a.uid is None ==> uid == 0xffff_ffff
            &&& a.gid is Some ==> a.gid == Some(gid)
            &&& a.gid is None ==> gid == 0xffff_ffff
        },
        AttrChange::Truncate(n) => a.size matches Some(size) && (if size < 0x8000_0000_0000_0000 {
            n == size
        } else {
            n == size - 0x1_0000_0000_0000_0000
        }),
        AttrChange::Times(atime, mtime) => (atime is Some || mtime is Some) && atime == a.atime
            && mtime == a.mtime,
    }
}

/// Exactly the changes that are asked for are made, each once: first the mode, then
/// the owners, then the size, then the times.
pub proof fn changes_are_those_asked_for(a: SetAttr)
    ensures
        forall|c: AttrChange| #[trigger] a.plan().contains(c) <==> is_asked_for(a, c),
        forall|i: int, j: int|
            0 <= i < j < a.plan().len() ==> turn(#[trigger] a.plan()[i]) < turn(
                #[trigger] a.plan()[j],
            ),
{
    let plan = a.plan();
    let n0: int = if a.mode is Some { 1 } else { 0 };
    let n1: int = if a.uid is Some || a.gid is Some { n0 + 1 } else { n0 };
    let n2: int = if a.size is Some { n1 + 1 } else { n1 };
    assert forall|c: AttrChange| is_asked_for(a, c) implies #[trigger] plan.contains(c) by {
        match c {
            AttrChange::Chmod(_) => {
                assert(plan[0] == c);
            },
            AttrChange::Chown(_, _) => {
                assert(plan[n0] == c);
            },
            AttrChange::Truncate(_) => {
                assert(plan[n1] == c);
            },
            AttrChange::Times(_, _) => {
                assert(plan[n2] == c);
            },
        }
    }
    assert forall|c: AttrChange| #[trigger] plan.contains(c) implies is_asked_for(a, c) by {
        let i = choose|i: int| 0 <= i < plan.len() && plan[i] == c;
        assert(plan[i] == c);
    }
}

} // verus!
