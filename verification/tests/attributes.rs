use rptagfs::attr::{
    create_flags, dir_attr, file_attr, file_kind, open_flags, AttrChange, FileKind, SetAttr, Stat,
    Time,
};

fn stat() -> Stat {
    Stat {
        symlink: false,
        size: 0x1_0000_0003,
        blocks: 9,
        atime: Some(Time { sec: 11, nsec: 12 }),
        mtime: None,
        ctime_sec: -5,
        ctime_nsec: 0x2_0000_0007,
        mode: 0o104755,
        nlink: 0x1_0000_0002,
        uid: 1000,
        gid: 100,
        rdev: 0xffff_ffff_0000_0001,
        blksize: 4096,
    }
}

#[test]
fn attributes_of_a_file() {
    let a = file_attr(42, &stat());
    assert_eq!(a.ino, 42);
    assert_eq!(a.size, 0x1_0000_0003);
    assert_eq!(a.blocks, 9);
    assert_eq!(a.atime, Time { sec: 11, nsec: 12 });
    assert_eq!(a.mtime, Time { sec: 0, nsec: 0 });
    assert_eq!(a.ctime, Time { sec: -5, nsec: 7 });
    assert_eq!(a.kind, FileKind::RegularFile);
    assert_eq!(a.perm, 0o4755);
    assert_eq!(a.nlink, 2);
    assert_eq!(a.uid, 1000);
    assert_eq!(a.gid, 100);
    assert_eq!(a.rdev, 1);
    assert_eq!(a.blksize, 4096);
}

#[test]
fn attributes_of_a_link() {
    let mut st = stat();
    st.symlink = true;
    st.ctime_nsec = -1;
    let a = file_attr(1, &st);
    assert_eq!(a.kind, FileKind::Symlink);
    assert_eq!(a.ctime.nsec, u32::MAX);
}

#[test]
fn attributes_of_a_directory() {
    let now = Time { sec: 100, nsec: 200 };
    let a = dir_attr(1, 1000, 100, now);
    assert_eq!(a.kind, FileKind::Directory);
    assert_eq!(a.perm, 0o755);
    assert_eq!(a.nlink, 2);
    assert_eq!(a.size, 0);
    assert_eq!(a.blocks, 0);
    assert_eq!(a.blksize, 4096);
    assert_eq!(a.rdev, 0);
    assert_eq!((a.ino, a.uid, a.gid), (1, 1000, 100));
    assert_eq!((a.atime, a.mtime, a.ctime), (now, now, now));
}

#[test]
fn kinds_of_files() {
    assert_eq!(file_kind(Some(true)), FileKind::Symlink);
    assert_eq!(file_kind(Some(false)), FileKind::RegularFile);
    assert_eq!(file_kind(None), FileKind::RegularFile);
}

fn none() -> SetAttr {
    SetAttr { mode: None, uid: None, gid: None, size: None, atime: None, mtime: None }
}

#[test]
fn no_changes() {
    assert!(none().changes().is_empty());
}

#[test]
fn changes_in_order() {
    let t = Time { sec: 1, nsec: 2 };
    let all = SetAttr {
        mode: Some(0o600),
        uid: Some(5),
        gid: Some(6),
        size: Some(10),
        atime: None,
        mtime: Some(t),
    };
    assert_eq!(
        all.changes(),
        vec![
            AttrChange::Chmod(0o600),
            AttrChange::Chown(5, 6),
            AttrChange::Truncate(10),
            AttrChange::Times(None, Some(t)),
        ]
    );
}

#[test]
fn one_owner_leaves_the_other() {
    let mut a = none();
    a.uid = Some(5);
    assert_eq!(a.changes(), vec![AttrChange::Chown(5, u32::MAX)]);
    let mut b = none();
    b.gid = Some(6);
    assert_eq!(b.changes(), vec![AttrChange::Chown(u32::MAX, 6)]);
}

#[test]
fn sizes_beyond_the_signed_range() {
    let mut a = none();
    a.size = Some(u64::MAX);
    assert_eq!(a.changes(), vec![AttrChange::Truncate(-1)]);
    a.size = Some(i64::MAX as u64);
    assert_eq!(a.changes(), vec![AttrChange::Truncate(i64::MAX)]);
}

#[test]
fn flags_for_opening() {
    assert_eq!(open_flags(0o1302, 0o100, 0o200, 0o400), 0o1002);
    assert_eq!(open_flags(u32::MAX, 0o100, 0o200, 0o400), !0o700);
    assert_eq!(create_flags(0o1002, 0o100, 0o200), 0o1302);
    assert_eq!(create_flags(0o302, 0o100, 0o200), 0o302);
}
