//! Attributes of inodes, changes to them, and flags for opening files.
use vstd::prelude::*;

verus! {

/// A point in time.
#[derive(Clone, Copy, PartialEq, Eq, Debug, Structural)]
pub struct Time {
    pub sec: i64,
    pub nsec: u32,
}

/// What kind of thing an inode is.
#[derive(Clone, Copy, PartialEq, Eq, Debug, Structural)]
pub enum FileKind {
    Directory,
    Symlink,
    RegularFile,
}

/// The attributes of an inode.
#[derive(Clone, Copy, PartialEq, Eq, Debug, Structural)]
pub struct Attr {
    pub ino: u64,
    pub size: u64,
    pub blocks: u64,
    pub atime: Time,
    pub mtime: Time,
    pub ctime: Time,
    pub kind: FileKind,
    pub perm: u16,
    pub nlink: u32,
    pub uid: u32,
    pub gid: u32,
    pub rdev: u32,
    pub blksize: u32,
}

/// What the system says of a file, or of a link itself.
#[derive(Clone, Copy, PartialEq, Eq, Debug, Structural)]
pub struct Stat {
    pub symlink: bool,
    pub size: u64,
    pub blocks: u64,
    /// None where the system keeps no such time.
    pub atime: Option<Time>,
    /// None where the system keeps no such time.
    pub mtime: Option<Time>,
    pub ctime_sec: i64,
    pub ctime_nsec: i64,
    pub mode: u32,
    pub nlink: u64,
    pub uid: u32,
    pub gid: u32,
    pub rdev: u64,
    pub blksize: u64,
}

/// The time that stands in for one that the system does not keep.
pub open spec fn epoch() -> Time {
    Time { sec: 0, nsec: 0 }
}

/// A time, or the start of the epoch.
pub open spec fn time_or_epoch(t: Option<Time>) -> Time {
    match t {
        Some(t) => t,
        None => epoch(),
    }
}

/// What kind of thing a file is; a file that cannot be looked at is taken for a
/// regular one.
pub open spec fn kind_of(symlink: Option<bool>) -> FileKind {
    if symlink == Some(true) {
        FileKind::Symlink
    } else {
        FileKind::RegularFile
    }
}

/// The attributes of a directory, which are made up.
pub open spec fn dir_attr_of(ino: u64, uid: u32, gid: u32, now: Time) -> Attr {
    Attr {
        ino,
        size: 0,
        blocks: 0,
        atime: now,
        mtime: now,
        ctime: now,
        kind: FileKind::Directory,
        perm: 0o755,
        nlink: 2,
        uid,
        gid,
        rdev: 0,
        blksize: 4096,
    }
}

/// The low half of a number.
pub open spec fn low_half(x: u64) -> int {
    x as int % 0x1_0000_0000
}

/// `a` are the attributes of the file that `s` tells of: wide numbers lose
/// their upper half, and of the mode the permission bits stay.
pub open spec fn is_file_attr(a: Attr, ino: u64, s: Stat) -> bool {
    &&& a.ino == ino
    &&& a.size == s.size
    &&& a.blocks == s.blocks
    &&& a.atime == time_or_epoch(s.atime)
    &&& a.mtime == time_or_epoch(s.mtime)
    &&& a.ctime.sec == s.ctime_sec
    &&& a.ctime.nsec == s.ctime_nsec as int % 0x1_0000_0000
    &&& a.kind == kind_of(Some(s.symlink))
    &&& a.perm == s.mode as int % 0o10000
    &&& a.nlink == low_half(s.nlink)
    &&& a.uid == s.uid
    &&& a.gid == s.gid
    &&& a.rdev == low_half(s.rdev)
    &&& a.blksize == low_half(s.blksize)
}

/// The kind of a file: a link where the system says so, else a regular file.
pub fn file_kind(symlink: Option<bool>) -> (r: FileKind)
    ensures
        r == kind_of(symlink),
{
    match symlink {
        Some(true) => FileKind::Symlink,
        _ => FileKind::RegularFile,
    }
}

/// Synthetic directory attributes.
pub fn dir_attr(ino: u64, uid: u32, gid: u32, now: Time) -> (r: Attr)
    ensures
        r == dir_attr_of(ino, uid, gid, now),
{
    Attr {
        ino,
        size: 0,
        blocks: 0,
        atime: now,
        mtime: now,
        ctime: now,
        kind: FileKind::Directory,
        perm: 0o755,
        nlink: 2,
        uid,
        gid,
        rdev: 0,
        blksize: 4096,
    }
}

fn low(x: u64) -> (r: u32)
    ensures
        r == low_half(x),
{
    assert(x as u32 == x % 0x1_0000_0000) by (bit_vector);
    x as u32
}

fn time_of(t: Option<Time>) -> (r: Time)
    ensures
        r == time_or_epoch(t),
{
    match t {
        Some(t) => t,
        None => Time { sec: 0, nsec: 0 },
    }
}

/// File attributes from what the system says, with our inode number.
pub fn file_attr(ino: u64, s: &Stat) -> (r: Attr)
    ensures
        is_file_attr(r, ino, *s),
{
    let mode: u32 = s.mode;
    let low_bits: u32 = mode & 0o7777;
    assert(low_bits < 0o10000 && low_bits == mode % 0o10000) by (bit_vector)
        requires
            low_bits == mode & 0o7777u32,
    ;
    let nsec: i64 = s.ctime_nsec;
    let short: u32 = nsec as u32;
    proof {
        lemma_low_nsec(nsec);
    }
    Attr {
        ino,
        size: s.size,
        blocks: s.blocks,
        atime: time_of(s.atime),
        mtime: time_of(s.mtime),
        ctime: Time { sec: s.ctime_sec, nsec: short },
        kind: file_kind(Some(s.symlink)),
        perm: low_bits as u16,
        nlink: low(s.nlink),
        uid: s.uid,
        gid: s.gid,
        rdev: low(s.rdev),
        blksize: low(s.blksize),
    }
}

proof fn lemma_low_nsec(x: i64)
    ensures
        x as u32 == x as int % 0x1_0000_0000,
{
    let y = x as u64;
    assert(x as u32 == (x as u64) as u32) by (bit_vector);
    assert(y as u32 == y % 0x1_0000_0000) by (bit_vector);
    if x >= 0 {
        assert(x >= 0 ==> x as u64 == x) by (bit_vector);
    } else {
        assert(x < 0 ==> x as u64 == x + 0x1_0000_0000_0000_0000) by (bit_vector);
        assert((x + 0x1_0000_0000_0000_0000) % 0x1_0000_0000 == x as int % 0x1_0000_0000);
    }
}

/// A request to change attributes; None leaves one as it is.
#[derive(Clone, Copy, PartialEq, Eq, Debug, Structural)]
pub struct SetAttr {
    pub mode: Option<u32>,
    pub uid: Option<u32>,
    pub gid: Option<u32>,
    pub size: Option<u64>,
    pub atime: Option<Time>,
    pub mtime: Option<Time>,
}

/// A change of a file's attributes.
#[derive(Clone, Copy, PartialEq, Eq, Debug, Structural)]
pub enum AttrChange {
    /// Set the mode.
    Chmod(u32),
    /// Set the owner and the group; the largest number leaves one as it is.
    Chown(u32, u32),
    /// Set the size.
    Truncate(i64),
    /// Set the times; None leaves one as it is.
    Times(Option<Time>, Option<Time>),
}

/// A size as the system takes it.
pub open spec fn signed_size(size: u64) -> int {
    if size <= i64::MAX {
        size as int
    } else {
        size - 0x1_0000_0000_0000_0000
    }
}

impl SetAttr {
    /// The changes that are asked for: mode, then owners, then size, then times.
    pub open spec fn plan(self) -> Seq<AttrChange> {
        let chmod = match self.mode {
            Some(mode) => seq![AttrChange::Chmod(mode)],
            None => seq![],
        };
        let chown = if self.uid is Some || self.gid is Some {
            seq![AttrChange::Chown(self.uid.unwrap_or(u32::MAX), self.gid.unwrap_or(u32::MAX))]
        } else {
            seq![]
        };
        let truncate = match self.size {
            Some(size) => seq![AttrChange::Truncate(signed_size(size) as i64)],
            None => seq![],
        };
        let times = if self.atime is Some || self.mtime is Some {
            seq![AttrChange::Times(self.atime, self.mtime)]
        } else {
            seq![]
        };
        chmod + chown + truncate + times
    }

    /// The changes that are asked for, in the order in which they are made.
    pub fn changes(&self) -> (r: Vec<AttrChange>)
        ensures
            r@ == self.plan(),
    {
        let mut v: Vec<AttrChange> = Vec::new();
        if let Some(mode) = self.mode {
            v.push(AttrChange::Chmod(mode));
        }
        if self.uid.is_some() || self.gid.is_some() {
            let uid = match self.uid {
                Some(uid) => uid,
                None => u32::MAX,
            };
            let gid = match self.gid {
                Some(gid) => gid,
                None => u32::MAX,
            };
            v.push(AttrChange::Chown(uid, gid));
        }
        if let Some(size) = self.size {
            assert(size as i64 == signed_size(size)) by {
                assert(size <= 0x7fff_ffff_ffff_ffff ==> size as i64 == size) by (bit_vector);
                assert(size > 0x7fff_ffff_ffff_ffff ==> size as i64 == size
                    - 0x1_0000_0000_0000_0000) by (bit_vector);
            }
            v.push(AttrChange::Truncate(size as i64));
        }
        if self.atime.is_some() || self.mtime.is_some() {
            v.push(AttrChange::Times(self.atime, self.mtime));
        }
        assert(v@ =~= self.plan());
        v
    }
}

/// The flags to open a file with: those of the request without the ones that
/// make a file.
pub fn open_flags(flags: u32, creat: i32, excl: i32, noctty: i32) -> (r: i32)
    ensures
        r == (flags as i32) & !(creat | excl | noctty),
        r & creat == 0,
        r & excl == 0,
        r & noctty == 0,
{
    let f: i32 = flags as i32;
    let r: i32 = f & !(creat | excl | noctty);
    assert(r & creat == 0 && r & excl == 0 && r & noctty == 0) by (bit_vector)
        requires
            r == f & !(creat | excl | noctty),
    ;
    r
}

/// The flags to make a file with: those of the request, and that it is made and
/// must not exist.
pub fn create_flags(flags: u32, creat: i32, excl: i32) -> (r: i32)
    ensures
        r == (flags as i32) | creat | excl,
        r & creat == creat,
        r & excl == excl,
{
    let f: i32 = flags as i32;
    let r: i32 = f | creat | excl;
    assert(r & creat == creat && r & excl == excl) by (bit_vector)
        requires
            r == f | creat | excl,
    ;
    r
}

} // verus!
