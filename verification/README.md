# rptagfs

A filesystem that shows a source tree by tags. The directories above a file are
its tags: `music/rock/song.mp3` has the tags `music` and `rock`. The root of the
mounted filesystem lists every tag as a directory. A tag directory shows the files
that have the tag, and the tags that occur together with it. `_all` shows every
file, `_untagged` those without tags. Changes made through the mount are made to
the source tree.

```sh
rptagfs <SOURCE_DIR> <MOUNT_POINT> [--show-hidden] [--debug]
```

## Layout

`src/` is the library, verified with Verus. It reads no disk. A request that
changes the tree is a series of steps: the library asks for one disk operation,
the caller performs it and hands back what came of it.

- `order`, `sorted_set`, `sorted_map`, `names`: ordered sets and maps, by what
  their keys say.
- `path`, `text`: paths as components of bytes, and the text of a name.
- `scanner`: from what was found in the source tree to the files, their tags and
  the directories of each set of tags.
- `inode`: which inode stands for which directory or file.
- `state`, `changes`, `rename_tag`, `moves`: what the filesystem knows, what it
  shows of that, and what each change does to it.
- `tagfs`, `ops`, `listing`, `attr`: the requests themselves.
- `laws`: what holds of the filesystem as a whole.
  - The index and the inodes stay consistent through every request, whatever comes
    of its disk operations.
  - A tag directory shows every file with all of its tags. What is shown is found,
    but for a tag whose name a file in the same directory or a special directory
    has: there the file or the special directory is found.
  - A request that is refused at once changes nothing. One that fails later leaves
    the index as it was before the failed operation; directories of a tag that were
    renamed or removed by then are noted.
  - The index says what is on the disk, after a scan and through every request.
    This is stated of a disk that nothing else changes meanwhile, and of requests
    whose names can stand for one entry of a directory.

`tests/` runs the library against a disk in memory. `app/` is the program: it reads
the source tree, mounts the filesystem and performs the disk operations.
