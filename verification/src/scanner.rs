//! Walks a source tree and builds the tag and file index.
use vstd::prelude::*;

use crate::names::{Name, NameMap, NameSet, Path, PathSet, TagMap};
use crate::path::{is_name, parse_path, path_join, path_parent, FsPath};
use crate::sorted_map::{added, dropped, set_of, touched, SortedMap};
use crate::sorted_set::{lemma_take_set, SortedSet};
use crate::text::{text, text_of};

verus! {

/// A file: where it is, and its tags, which are the directories on the way.
#[derive(PartialEq, Eq, Debug)]
pub struct FileEntry {
    /// The path below the top of the source tree.
    pub ffn: FsPath,
    /// The tags.
    pub tags: NameSet,
}

/// What a `FileEntry` says.
pub struct FileView {
    pub ffn: Path,
    pub tags: Set<Name>,
}

impl View for FileEntry {
    type V = FileView;

    open spec fn view(&self) -> FileView {
        FileView { ffn: self.ffn@, tags: self.tags@ }
    }
}

/// The index of a source tree.
pub struct ScanResult {
    /// Each file by its basename, which may have got a `.__N` suffix.
    pub files: NameMap<FileEntry>,
    /// The directories of each set of tags.
    pub tagdirs: TagMap<PathSet>,
    /// The basenames that have each tag.
    pub by_tags: NameMap<NameSet>,
}

/// What a `ScanResult` says.
#[verifier::ext_equal]
pub struct ScanView {
    pub files: Map<Name, FileView>,
    pub tagdirs: Map<Set<Name>, Set<Path>>,
    pub by_tags: Map<Name, Set<Name>>,
}

impl View for ScanResult {
    type V = ScanView;

    open spec fn view(&self) -> ScanView {
        ScanView { files: self.files@, tagdirs: self.tagdirs@, by_tags: self.by_tags@ }
    }
}

/// The texts of the names among the components of a path.
pub open spec fn name_tags(p: Path) -> Set<Name> {
    Set::new(|t: Name| exists|i: int| 0 <= i < p.len() && is_name(#[trigger] p[i]) && text_of(p[i]) == t)
}

/// The tags of a file: the names of the directories above it.
pub open spec fn file_tags(p: Path) -> Set<Name> {
    match path_parent(p) {
        Some(dir) => name_tags(dir),
        None => Set::empty(),
    }
}

/// The names among the components of a path, as tags.
pub fn components_to_tags(path: &FsPath) -> (r: NameSet)
    ensures
        r@ == name_tags(path@),
{
    let mut r: NameSet = SortedSet::new();
    let n = path.len();
    let mut i: usize = 0;
    while i < n
        invariant
            i <= n,
            n == path@.len(),
            r@ == name_tags(path@.take(i as int)),
        decreases n - i,
    {
        let ghost p = path@.take(i as int);
        let ghost q = path@.take(i + 1);
        let ghost before = r@;
        if path.is_name_at(i) {
            r.insert(text(path.comp(i)));
        }
        assert forall|t: Name| #[trigger] r@.contains(t) == name_tags(q).contains(t) by {
            if name_tags(p).contains(t) {
                let j = choose|j: int| 0 <= j < p.len() && is_name(#[trigger] p[j]) && text_of(p[j]) == t;
                assert(is_name(q[j]) && text_of(q[j]) == t);
            }
            if is_name(path@[i as int]) && t == text_of(path@[i as int]) {
                assert(is_name(q[i as int]) && text_of(q[i as int]) == t);
            }
            if name_tags(q).contains(t) {
                let j = choose|j: int| 0 <= j < q.len() && is_name(#[trigger] q[j]) && text_of(q[j]) == t;
                if j < i {
                    assert(is_name(p[j]) && text_of(p[j]) == t);
                }
            }
        }
        i += 1;
        assert(r@ =~= name_tags(q));
    }
    assert(path@.take(n as int) =~= path@);
    r
}

/// For a file such as `tag1/tag2/file.txt`, the tags `tag1` and `tag2`.
pub fn file_path_to_tags(path: &FsPath) -> (r: NameSet)
    ensures
        r@ == file_tags(path@),
{
    match path.parent() {
        Some(parent) => components_to_tags(&parent),
        None => SortedSet::new(),
    }
}

/// For a directory such as `tag1/tag2`, the tags `tag1` and `tag2`.
pub fn dir_path_to_tags(path: &FsPath) -> (r: NameSet)
    ensures
        r@ == name_tags(path@),
{
    components_to_tags(path)
}

/// `k` is the place of the last dot.
pub open spec fn last_dot(name: Name, k: int) -> bool {
    &&& 0 <= k < name.len()
    &&& name[k] == '.'
    &&& forall|j: int| k < j < name.len() ==> #[trigger] name[j] != '.'
}

/// A name up to its last dot, and the rest. A dot at the front does not count.
pub open spec fn stem_and_ext(name: Name) -> (Name, Name) {
    if exists|k: int| k > 0 && #[trigger] last_dot(name, k) {
        let k = choose|k: int| k > 0 && #[trigger] last_dot(name, k);
        (name.take(k), name.skip(k))
    } else {
        (name, Seq::empty())
    }
}

/// Splits a filename into its stem and its extension with the dot.
/// `file.tar.gz` gives `file.tar` and `.gz`, `.hidden` has no extension.
pub fn split_ext(name: &str) -> (r: (&str, &str))
    ensures
        (r.0@, r.1@) == stem_and_ext(name@),
{
    let n = name.unicode_len();
    let mut i: usize = n;
    while i > 1
        invariant
            i <= n,
            n == name@.len(),
            forall|j: int| i <= j < n ==> #[trigger] name@[j] != '.',
        decreases i,
    {
        if name.get_char(i - 1) == '.' {
            let k: usize = i - 1;
            let a = name.substring_char(0, k);
            let b = name.substring_char(k, n);
            proof {
                assert(last_dot(name@, k as int));
                let m = choose|m: int| m > 0 && #[trigger] last_dot(name@, m);
                assert(m == k) by {
                    if m < k {
                        assert(name@[k as int] != '.');
                    } else if k < m {
                        assert(name@[m] != '.');
                    }
                }
                assert(a@ =~= name@.take(m));
                assert(b@ =~= name@.skip(m));
            }
            return (a, b);
        }
        i -= 1;
    }
    proof {
        reveal_strlit("");
        assert(""@ =~= Seq::<char>::empty());
        assert forall|k: int| k > 0 implies !#[trigger] last_dot(name@, k) by {}
    }
    (name, "")
}

/// A digit.
pub open spec fn digit(d: int) -> char {
    if d == 0 {
        '0'
    } else if d == 1 {
        '1'
    } else if d == 2 {
        '2'
    } else if d == 3 {
        '3'
    } else if d == 4 {
        '4'
    } else if d == 5 {
        '5'
    } else if d == 6 {
        '6'
    } else if d == 7 {
        '7'
    } else if d == 8 {
        '8'
    } else {
        '9'
    }
}

/// A number in decimal.
pub open spec fn decimal(n: nat) -> Seq<char>
    decreases n,
{
    if n < 10 {
        seq![digit(n as int)]
    } else {
        decimal(n / 10).push(digit((n % 10) as int))
    }
}

/// `bn` with the mark `.__i` before its extension.
pub open spec fn numbered(bn: Name, i: nat) -> Name {
    let (stem, ext) = stem_and_ext(bn);
    stem + seq!['.', '_', '_'] + decimal(i) + ext
}

/// `i` is the first number that makes a name that is not taken.
pub open spec fn first_free(bn: Name, taken: Set<Name>, i: nat) -> bool {
    &&& i >= 1
    &&& !taken.contains(numbered(bn, i))
    &&& forall|j: nat| 1 <= j < i ==> taken.contains(#[trigger] numbered(bn, j))
}

/// The name under which a file called `bn` is known beside those that are taken.
pub open spec fn free_bn(bn: Name, taken: Set<Name>) -> Name {
    if !taken.contains(bn) {
        bn
    } else {
        numbered(bn, choose|i: nat| first_free(bn, taken, i))
    }
}

proof fn lemma_decimal_len(n: nat)
    ensures
        decimal(n).len() >= 1,
        n >= 10 ==> decimal(n).len() >= 2,
    decreases n,
{
    if n >= 10 {
        lemma_decimal_len(n / 10);
    }
}

proof fn lemma_decimal_injective(a: nat, b: nat)
    requires
        decimal(a) == decimal(b),
    ensures
        a == b,
    decreases a,
{
    lemma_decimal_len(a);
    lemma_decimal_len(b);
    assert(digit((a % 10) as int) == decimal(a).last());
    assert(digit((b % 10) as int) == decimal(b).last());
    assert(a % 10 == b % 10);
    if a >= 10 {
        assert(b >= 10);
        assert(decimal(a).drop_last() =~= decimal(a / 10));
        assert(decimal(b).drop_last() =~= decimal(b / 10));
        lemma_decimal_injective(a / 10, b / 10);
    } else {
        assert(b < 10);
    }
}

/// Different numbers make different names.
pub proof fn lemma_numbered_injective(bn: Name, i: nat, j: nat)
    requires
        numbered(bn, i) == numbered(bn, j),
    ensures
        i == j,
{
    let (stem, ext) = stem_and_ext(bn);
    let head = stem + seq!['.', '_', '_'];
    let a = numbered(bn, i);
    let b = numbered(bn, j);
    assert(a.subrange(head.len() as int, a.len() - ext.len()) =~= decimal(i));
    assert(b.subrange(head.len() as int, b.len() - ext.len()) =~= decimal(j));
    lemma_decimal_injective(i, j);
}

/// Among one number more than there are names taken, one is free.
proof fn lemma_pigeons(bn: Name, taken: Set<Name>, n: nat)
    requires
        taken.finite(),
        forall|j: nat| 1 <= j <= n ==> taken.contains(#[trigger] numbered(bn, j)),
    ensures
        n <= taken.len(),
    decreases n,
{
    if n > 0 {
        let last = numbered(bn, n);
        let rest = taken.remove(last);
        assert forall|j: nat| 1 <= j <= n - 1 implies rest.contains(#[trigger] numbered(bn, j)) by {
            assert(taken.contains(numbered(bn, j)));
            if numbered(bn, j) == last {
                lemma_numbered_injective(bn, j, n);
            }
        }
        assert(taken.contains(last));
        lemma_pigeons(bn, rest, (n - 1) as nat);
    }
}

/// One of the numbers makes a name that is not taken.
proof fn lemma_first_free(bn: Name, taken: Set<Name>, n: nat)
    requires
        taken.finite(),
        forall|j: nat| 1 <= j < n ==> taken.contains(#[trigger] numbered(bn, j)),
        1 <= n <= taken.len() + 1,
    ensures
        exists|i: nat| first_free(bn, taken, i),
    decreases taken.len() + 1 - n,
{
    if !taken.contains(numbered(bn, n)) {
        assert(first_free(bn, taken, n));
    } else {
        assert forall|j: nat| 1 <= j < n + 1 implies taken.contains(#[trigger] numbered(bn, j)) by {}
        assert forall|j: nat| 1 <= j <= n implies taken.contains(#[trigger] numbered(bn, j)) by {}
        lemma_pigeons(bn, taken, n);
        lemma_first_free(bn, taken, n + 1);
    }
}

/// The name that a file gets is not taken, and it is the file's own where that is
/// not taken.
pub proof fn free_name_is_free(bn: Name, taken: Set<Name>)
    requires
        taken.finite(),
    ensures
        !taken.contains(free_bn(bn, taken)),
        !taken.contains(bn) ==> free_bn(bn, taken) == bn,
        taken.contains(bn) ==> exists|i: nat|
            first_free(bn, taken, i) && free_bn(bn, taken) == numbered(bn, i),
{
    if taken.contains(bn) {
        lemma_first_free(bn, taken, 1);
    }
}

fn digit_text(d: u64) -> (r: &'static str)
    requires
        d < 10,
    ensures
        r@ == seq![digit(d as int)],
{
    let r = match d {
        0 => "0",
        1 => "1",
        2 => "2",
        3 => "3",
        4 => "4",
        5 => "5",
        6 => "6",
        7 => "7",
        8 => "8",
        _ => "9",
    };
    proof {
        reveal_strlit("0");
        reveal_strlit("1");
        reveal_strlit("2");
        reveal_strlit("3");
        reveal_strlit("4");
        reveal_strlit("5");
        reveal_strlit("6");
        reveal_strlit("7");
        reveal_strlit("8");
        reveal_strlit("9");
        assert(r@ =~= seq![digit(d as int)]);
    }
    r
}

fn decimal_text(n: u64) -> (r: String)
    ensures
        r@ == decimal(n as nat),
    decreases n,
{
    if n < 10 {
        digit_text(n).to_owned()
    } else {
        let mut r = decimal_text(n / 10);
        r.append(digit_text(n % 10));
        assert(r@ =~= decimal(n as nat));
        r
    }
}

/// Resolves a collision of basenames: `bn` itself where it is not taken, else
/// the first of `stem.__1.ext`, `stem.__2.ext`, ... that is not.
pub fn find_free_bn(bn: &str, existing: &NameSet) -> (r: String)
    ensures
        r@ == free_bn(bn@, existing@),
        !existing@.contains(r@),
        !existing@.contains(bn@) ==> r@ == bn@,
        existing@.contains(bn@) ==> exists|i: nat|
            first_free(bn@, existing@, i) && r@ == numbered(bn@, i),
{
    let own = bn.to_owned();
    if !existing.contains(&own) {
        return own;
    }
    let count = existing.len();
    let (root, ext) = split_ext(bn);
    let mark = ".__";
    proof {
        reveal_strlit(".__");
        assert(mark@ =~= seq!['.', '_', '_']);
    }
    let mut i: u64 = 1;
    loop
        invariant
            existing@.contains(bn@),
            existing@.finite(),
            count == existing@.len(),
            (root@, ext@) == stem_and_ext(bn@),
            mark@ == seq!['.', '_', '_'],
            1 <= i,
            forall|j: nat| 1 <= j < i ==> existing@.contains(#[trigger] numbered(bn@, j)),
        decreases count - i,
    {
        let mut candidate = root.to_owned();
        candidate.append(mark);
        candidate.append(decimal_text(i).as_str());
        candidate.append(ext);
        assert(candidate@ =~= numbered(bn@, i as nat));
        if !existing.contains(&candidate) {
            proof {
                let n = i as nat;
                assert(first_free(bn@, existing@, n));
                let m = choose|m: nat| first_free(bn@, existing@, m);
                if m < n {
                    assert(existing@.contains(numbered(bn@, m)));
                } else if n < m {
                    assert(existing@.contains(numbered(bn@, n)));
                }
            }
            return candidate;
        }
        proof {
            let others = existing@.remove(bn@);
            assert forall|j: nat| 1 <= j <= i implies others.contains(#[trigger] numbered(bn@, j)) by {
                lemma_numbered_longer(bn@, j);
                assert(j == i || existing@.contains(numbered(bn@, j)));
            }
            lemma_pigeons(bn@, others, i as nat);
        }
        i += 1;
    }
}

proof fn lemma_numbered_longer(bn: Name, i: nat)
    ensures
        numbered(bn, i).len() > bn.len(),
{
    lemma_decimal_len(i);
    let (stem, ext) = stem_and_ext(bn);
    assert(stem.len() + ext.len() == bn.len());
}

/// What a directory entry turns out to be.
#[derive(Clone, Copy, PartialEq, Eq, Debug, Structural)]
pub enum Kind {
    Dir,
    File,
    Other,
}

/// An entry of a directory in the source tree, as it was read.
pub struct Found {
    /// The name of the entry.
    pub name: Vec<u8>,
    /// What the entry leads to, links followed; nothing for a broken link.
    pub target: Option<Kind>,
    /// Whether the entry itself is a directory, not a link to one.
    pub real_dir: bool,
    /// What the directory holds, where it was read.
    pub inside: Vec<Found>,
}

/// A name is shown unless it begins with a dot and such names are hidden.
pub open spec fn shown(name: Seq<u8>, show_hidden: bool) -> bool {
    let t = text_of(name);
    show_hidden || !(t.len() > 0 && t[0] == '.')
}

/// The directory goes on below this entry: not through links, which may loop.
pub open spec fn goes_on(e: Found) -> bool {
    e.target == Some(Kind::Dir) && e.real_dir
}

/// Whether an entry with this name is shown.
pub fn is_shown(name: &[u8], show_hidden: bool) -> (r: bool)
    ensures
        r == shown(name@, show_hidden),
{
    if show_hidden {
        return true;
    }
    let t = text(name);
    let s = t.as_str();
    !(s.unicode_len() > 0 && s.get_char(0) == '.')
}

/// Whether what is inside an entry is part of the tree.
pub fn is_entered(target: &Option<Kind>, real_dir: bool) -> (r: bool)
    ensures
        r == (*target == Some(Kind::Dir) && real_dir),
{
    match target {
        Some(Kind::Dir) => real_dir,
        _ => false,
    }
}

/// `m` with a set for each of `tags`.
pub open spec fn touch_all(m: Map<Name, Set<Name>>, tags: Set<Name>) -> Map<Name, Set<Name>> {
    Map::new(|t: Name| m.contains_key(t) || tags.contains(t), |t: Name| set_of(m, t))
}

/// `m` with `bn` in the set of each of `tags`.
pub open spec fn add_all(m: Map<Name, Set<Name>>, tags: Set<Name>, bn: Name) -> Map<Name, Set<Name>> {
    Map::new(
        |t: Name| m.contains_key(t) || tags.contains(t),
        |t: Name|
            if tags.contains(t) {
                set_of(m, t).insert(bn)
            } else {
                m[t]
            },
    )
}

/// `m` without `bn` in the sets of `tags`.
pub open spec fn drop_all(m: Map<Name, Set<Name>>, tags: Set<Name>, bn: Name) -> Map<Name, Set<Name>> {
    Map::new(
        |t: Name| m.contains_key(t),
        |t: Name|
            if tags.contains(t) {
                m[t].remove(bn)
            } else {
                m[t]
            },
    )
}

proof fn lemma_touch_step(m: Map<Name, Set<Name>>, seen: Set<Name>, tag: Name)
    ensures
        touched(touch_all(m, seen), tag) == touch_all(m, seen.insert(tag)),
{
    assert(touched(touch_all(m, seen), tag) =~= touch_all(m, seen.insert(tag)));
}

proof fn lemma_add_step(m: Map<Name, Set<Name>>, seen: Set<Name>, tag: Name, bn: Name)
    ensures
        added(add_all(m, seen, bn), tag, bn) == add_all(m, seen.insert(tag), bn),
{
    let was = add_all(m, seen, bn);
    let a = added(was, tag, bn);
    let b = add_all(m, seen.insert(tag), bn);
    assert(set_of(was, tag).insert(bn) =~= set_of(m, tag).insert(bn)) by {
        if seen.contains(tag) {
            assert(was[tag] == set_of(m, tag).insert(bn));
        } else if m.contains_key(tag) {
            assert(was[tag] == m[tag]);
        } else {
            assert(!was.contains_key(tag));
        }
    }
    assert forall|t: Name| #[trigger] a.contains_key(t) implies a[t] == b[t] by {
        if t == tag {
            assert(b[t] == set_of(m, tag).insert(bn));
        } else {
            assert(a[t] == was[t]);
        }
    }
    assert(a =~= b);
}

proof fn lemma_drop_step(m: Map<Name, Set<Name>>, seen: Set<Name>, tag: Name, bn: Name)
    ensures
        dropped(drop_all(m, seen, bn), tag, bn) == drop_all(m, seen.insert(tag), bn),
{
    let a = dropped(drop_all(m, seen, bn), tag, bn);
    let b = drop_all(m, seen.insert(tag), bn);
    assert forall|t: Name| #[trigger] a.contains_key(t) implies a[t] == b[t] by {
        assert(a[t] =~= b[t]);
    }
    assert(a =~= b);
}

/// Makes sure that each of `tags` has a set.
pub fn touch_each(m: &mut NameMap<NameSet>, tags: &NameSet)
    ensures
        final(m)@ == touch_all(old(m)@, tags@),
{
    let n = tags.len();
    let ghost q = tags.seq();
    let mut i: usize = 0;
    assert(m@ =~= touch_all(old(m)@, q.take(0).to_set()));
    while i < n
        invariant
            i <= n,
            n == tags.seq().len(),
            q == tags.seq(),
            m@ == touch_all(old(m)@, q.take(i as int).to_set()),
        decreases n - i,
    {
        m.touch(tags.at(i));
        proof {
            lemma_take_set(q, i as int);
            lemma_touch_step(old(m)@, q.take(i as int).to_set(), q[i as int]);
        }
        i += 1;
    }
    assert(q.take(n as int) =~= q);
}

/// Adds `bn` to the set of each of `tags`.
pub fn add_to_each(m: &mut NameMap<NameSet>, tags: &NameSet, bn: &String)
    ensures
        final(m)@ == add_all(old(m)@, tags@, bn@),
{
    let n = tags.len();
    let ghost q = tags.seq();
    let mut i: usize = 0;
    assert(m@ =~= add_all(old(m)@, q.take(0).to_set(), bn@));
    while i < n
        invariant
            i <= n,
            n == tags.seq().len(),
            q == tags.seq(),
            m@ == add_all(old(m)@, q.take(i as int).to_set(), bn@),
        decreases n - i,
    {
        m.add(tags.at(i), bn.clone());
        proof {
            lemma_take_set(q, i as int);
            lemma_add_step(old(m)@, q.take(i as int).to_set(), q[i as int], bn@);
        }
        i += 1;
    }
    assert(q.take(n as int) =~= q);
}

/// Takes `bn` out of the sets of `tags`.
pub fn drop_from_each(m: &mut NameMap<NameSet>, tags: &NameSet, bn: &String)
    ensures
        final(m)@ == drop_all(old(m)@, tags@, bn@),
{
    let n = tags.len();
    let ghost q = tags.seq();
    let mut i: usize = 0;
    assert(m@ =~= drop_all(old(m)@, q.take(0).to_set(), bn@));
    while i < n
        invariant
            i <= n,
            n == tags.seq().len(),
            q == tags.seq(),
            m@ == drop_all(old(m)@, q.take(i as int).to_set(), bn@),
        decreases n - i,
    {
        m.drop_item(tags.at(i), bn);
        proof {
            lemma_take_set(q, i as int);
            lemma_drop_step(old(m)@, q.take(i as int).to_set(), q[i as int], bn@);
        }
        i += 1;
    }
    assert(q.take(n as int) =~= q);
}

/// The index with the directory `p`.
pub open spec fn with_scanned_dir(acc: ScanView, p: Path) -> ScanView {
    ScanView {
        files: acc.files,
        tagdirs: added(acc.tagdirs, name_tags(p), p),
        by_tags: touch_all(acc.by_tags, name_tags(p)),
    }
}

/// The directory that holds `p`.
pub open spec fn dir_of(p: Path) -> Path {
    match path_parent(p) {
        Some(dir) => dir,
        None => Seq::empty(),
    }
}

/// The index with the file `p`, whose own name is `name`.
pub open spec fn with_scanned_file(acc: ScanView, p: Path, name: Name) -> ScanView {
    let bn = free_bn(name, acc.files.dom());
    let tags = file_tags(p);
    ScanView {
        files: acc.files.insert(bn, FileView { ffn: p, tags }),
        tagdirs: added(acc.tagdirs, tags, dir_of(p)),
        by_tags: add_all(acc.by_tags, tags, bn),
    }
}

/// The index with the entry `e` of the directory `dir` and what is inside it.
pub open spec fn scan_entry(acc: ScanView, dir: Path, e: Found, show_hidden: bool) -> ScanView
    decreases e,
{
    let p = path_join(dir, parse_path(e.name@));
    if !shown(e.name@, show_hidden) {
        acc
    } else if e.target == Some(Kind::Dir) {
        let next = with_scanned_dir(acc, p);
        if goes_on(e) {
            scan_entries(next, p, e.inside@, show_hidden)
        } else {
            next
        }
    } else if e.target == Some(Kind::File) {
        with_scanned_file(acc, p, text_of(e.name@))
    } else {
        acc
    }
}

/// The index with the entries of the directory `dir`, one after the other.
pub open spec fn scan_entries(
    acc: ScanView,
    dir: Path,
    inside: Seq<Found>,
    show_hidden: bool,
) -> ScanView
    decreases inside,
{
    if inside.len() == 0 {
        acc
    } else {
        scan_entry(
            scan_entries(acc, dir, inside.drop_last(), show_hidden),
            dir,
            inside.last(),
            show_hidden,
        )
    }
}

/// The index of nothing.
pub open spec fn empty_scan() -> ScanView {
    ScanView { files: Map::empty(), tagdirs: Map::empty(), by_tags: Map::empty() }
}

/// Adds the entries of the directory `dir` to the index.
fn scan_dir(dir: &FsPath, inside: &Vec<Found>, show_hidden: bool, result: &mut ScanResult)
    ensures
        final(result)@ == scan_entries(old(result)@, dir@, inside@, show_hidden),
    decreases inside,
{
    let mut i: usize = 0;
    assert(inside@.take(0) =~= Seq::<Found>::empty());
    while i < inside.len()
        invariant
            i <= inside@.len(),
            result@ == scan_entries(old(result)@, dir@, inside@.take(i as int), show_hidden),
        decreases inside@.len() - i,
    {
        let ghost acc = result@;
        assert(inside@.take(i + 1).drop_last() =~= inside@.take(i as int));
        assert(inside@.take(i + 1).last() == inside@[i as int]);
        let e = &inside[i];
        if is_shown(e.name.as_slice(), show_hidden) {
            let rel_path = dir.join(&FsPath::from_bytes(e.name.as_slice()));
            match e.target {
                Some(Kind::Dir) => {
                    let tags = dir_path_to_tags(&rel_path);
                    result.tagdirs.add(&tags, rel_path.dup());
                    touch_each(&mut result.by_tags, &tags);
                    assert(result@ == with_scanned_dir(acc, rel_path@));
                    if is_entered(&e.target, e.real_dir) {
                        scan_dir(&rel_path, &e.inside, show_hidden, result);
                    }
                },
                Some(Kind::File) => {
                    let tags = file_path_to_tags(&rel_path);
                    let own = text(e.name.as_slice());
                    let bn = find_free_bn(own.as_str(), &result.files.key_set());
                    let dirname = match rel_path.parent() {
                        Some(p) => p,
                        None => FsPath::empty(),
                    };
                    result.tagdirs.add(&tags, dirname);
                    add_to_each(&mut result.by_tags, &tags, &bn);
                    result.files.insert(bn, FileEntry { ffn: rel_path, tags });
                    assert(result@ == with_scanned_file(acc, rel_path@, own@));
                },
                _ => {},
            }
        }
        assert(result@ == scan_entry(acc, dir@, inside@[i as int], show_hidden));
        i += 1;
    }
    assert(inside@.take(i as int) =~= inside@);
}

/// Builds the index of a source tree from what its top directory holds.
pub fn scan_tree(top: &Vec<Found>, show_hidden: bool) -> (r: ScanResult)
    ensures
        r@ == scan_entries(empty_scan(), Seq::empty(), top@, show_hidden),
{
    let mut result = ScanResult {
        files: SortedMap::new(),
        tagdirs: SortedMap::new(),
        by_tags: SortedMap::new(),
    };
    scan_dir(&FsPath::empty(), top, show_hidden, &mut result);
    result
}

} // verus!
