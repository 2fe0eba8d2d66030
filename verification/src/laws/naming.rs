//! The names and the tags that a scan gives.
use vstd::prelude::*;

use crate::laws::consistent::scan_is_consistent;
use crate::laws::filed::all_dirs;
use crate::laws::plain::{lemma_join_name, lemma_name_tags_plain, lemma_plain_dir, plain_path};
use crate::laws::scanned::{entries_ok, entry_ok, scan_finds_every_file};
use crate::names::{Name, Path};
use crate::scanner::{
    decimal, digit, dir_of, empty_scan, file_tags, first_free, free_bn, free_name_is_free, goes_on, last_dot,
    name_tags, numbered, scan_entries, scan_entry, shown, stem_and_ext, with_scanned_dir,
    with_scanned_file, Found, Kind, ScanView,
};
use crate::state::FsView;
use crate::text::text_of;

verus! {

/// `t` is the text of one of the first `n` components of a path.
pub open spec fn on_path(p: Path, n: int, t: Name) -> bool {
    exists|i: int| 0 <= i < n && text_of(#[trigger] p[i]) == t
}

/// Some known directory has `t` on its path.
pub open spec fn on_known_path(scan: ScanView, t: Name) -> bool {
    exists|p: Path| #[trigger] all_dirs(scan.tagdirs).contains(p) && on_path(p, p.len() as int, t)
}

proof fn lemma_tags_on_path(p: Path, t: Name)
    requires
        plain_path(p),
    ensures
        name_tags(p).contains(t) <==> on_path(p, p.len() as int, t),
{
    lemma_name_tags_plain(p);
    let q = Seq::new(p.len(), |i: int| text_of(p[i]));
    if q.to_set().contains(t) {
        let i = choose|i: int| 0 <= i < q.len() && q[i] == t;
        assert(text_of(p[i]) == t);
    }
    if on_path(p, p.len() as int, t) {
        let i = choose|i: int| 0 <= i < p.len() && text_of(#[trigger] p[i]) == t;
        assert(q[i] == t);
    }
}

/// The tags of a file are the names of the directories on its path. A directory is
/// known under the names on its path. The tags are the names on the paths of known
/// directories, and each is listed with the files that have it.
pub proof fn tags_are_names_on_paths(top: Seq<Found>, show_hidden: bool)
    requires
        entries_ok(top),
    ensures
        ({
            let scan = scan_entries(empty_scan(), Seq::empty(), top, show_hidden);
            &&& forall|n: Name, t: Name|
                #![trigger scan.files[n].tags.contains(t)]
                scan.files.contains_key(n) ==> (scan.files[n].tags.contains(t) <==> on_path(
                    scan.files[n].ffn,
                    scan.files[n].ffn.len() - 1,
                    t,
                ))
            &&& forall|k: Set<Name>, p: Path, t: Name|
                #![trigger scan.tagdirs[k].contains(p), k.contains(t)]
                scan.tagdirs.contains_key(k) && scan.tagdirs[k].contains(p) ==> (k.contains(t)
                    <==> on_path(p, p.len() as int, t))
            &&& forall|t: Name| #[trigger] scan.by_tags.contains_key(t) <==> on_known_path(scan, t)
            &&& forall|t: Name, n: Name|
                #![trigger scan.by_tags[t].contains(n)]
                scan.by_tags.contains_key(t) ==> (scan.by_tags[t].contains(n)
                    <==> scan.files.contains_key(n) && scan.files[n].tags.contains(t))
        }),
{
    let scan = scan_entries(empty_scan(), Seq::empty(), top, show_hidden);
    scan_finds_every_file(top, show_hidden);
    scan_is_consistent(top, show_hidden);
    assert forall|n: Name, t: Name|
        #![trigger scan.files[n].tags.contains(t)]
        scan.files.contains_key(n) implies (scan.files[n].tags.contains(t) <==> on_path(
        scan.files[n].ffn,
        scan.files[n].ffn.len() - 1,
        t,
    )) by {
        let p = scan.files[n].ffn;
        assert(FsView::of_scan(scan).files.contains_key(n));
        lemma_plain_dir(p);
        lemma_tags_on_path(p.drop_last(), t);
        if on_path(p, p.len() - 1, t) {
            let i = choose|i: int| 0 <= i < p.len() - 1 && text_of(#[trigger] p[i]) == t;
            assert(text_of(p.drop_last()[i]) == t);
        }
        if on_path(p.drop_last(), p.len() - 1, t) {
            let i = choose|i: int| 0 <= i < p.len() - 1 && text_of(#[trigger] p.drop_last()[i]) == t;
            assert(text_of(p[i]) == t);
        }
    }
    assert forall|k: Set<Name>, p: Path, t: Name|
        #![trigger scan.tagdirs[k].contains(p), k.contains(t)]
        scan.tagdirs.contains_key(k) && scan.tagdirs[k].contains(p) implies (k.contains(t)
        <==> on_path(p, p.len() as int, t)) by {
        lemma_tags_on_path(p, t);
    }
    assert forall|t: Name| #[trigger] scan.by_tags.contains_key(t) <==> on_known_path(scan, t) by {
        if scan.by_tags.contains_key(t) {
            let p = choose|p: Path| #[trigger]
                all_dirs(scan.tagdirs).contains(p) && name_tags(p).contains(t);
            let k = choose|k: Set<Name>| #[trigger]
                scan.tagdirs.contains_key(k) && scan.tagdirs[k].contains(p);
            assert(scan.tagdirs[k].contains(p));
            lemma_tags_on_path(p, t);
        }
        if on_known_path(scan, t) {
            let p = choose|p: Path| #[trigger]
                all_dirs(scan.tagdirs).contains(p) && on_path(p, p.len() as int, t);
            let k = choose|k: Set<Name>| #[trigger]
                scan.tagdirs.contains_key(k) && scan.tagdirs[k].contains(p);
            assert(scan.tagdirs[k].contains(p));
            lemma_tags_on_path(p, t);
            assert(k.contains(t));
        }
    }
}

/// A file whose own name is `own` is known as `n`: under its own name, or, where
/// that is known already, under the first numbered form of it that was not.
pub open spec fn goes_by(known: Set<Name>, own: Name, n: Name) -> bool {
    n == own || (known.contains(own) && exists|i: nat|
        i >= 1 && n == #[trigger] numbered(own, i) && forall|j: nat|
            1 <= j < i ==> known.contains(#[trigger] numbered(own, j)))
}

/// Every file goes by its own name or a numbered form of it, and no set of tags is
/// without directories.
spec fn names_given(acc: ScanView) -> bool {
    &&& acc.files.dom().finite()
    &&& forall|n: Name| #[trigger]
        acc.files.contains_key(n) ==> acc.files[n].ffn.len() > 0 && goes_by(
            acc.files.dom(),
            text_of(acc.files[n].ffn.last()),
            n,
        )
    &&& forall|k: Set<Name>| #[trigger]
        acc.tagdirs.contains_key(k) ==> exists|p: Path| acc.tagdirs[k].contains(p)
}

/// What was known before is still known, and means the same.
spec fn names_kept(acc: ScanView, r: ScanView) -> bool {
    &&& forall|n: Name| #[trigger]
        acc.files.contains_key(n) ==> r.files.contains_key(n) && r.files[n] == acc.files[n]
    &&& forall|k: Set<Name>, p: Path|
        #![trigger acc.tagdirs[k].contains(p)]
        acc.tagdirs.contains_key(k) && acc.tagdirs[k].contains(p) ==> r.tagdirs.contains_key(k)
            && r.tagdirs[k].contains(p)
}

proof fn lemma_goes_by_more(known: Set<Name>, more: Set<Name>, own: Name, n: Name)
    requires
        goes_by(known, own, n),
        known.subset_of(more),
    ensures
        goes_by(more, own, n),
{
    if n != own {
        let i = choose|i: nat|
            i >= 1 && n == #[trigger] numbered(own, i) && forall|j: nat|
                1 <= j < i ==> known.contains(#[trigger] numbered(own, j));
        assert(n == numbered(own, i));
        assert forall|j: nat| 1 <= j < i implies more.contains(#[trigger] numbered(own, j)) by {
            assert(known.contains(numbered(own, j)));
        }
    }
}

proof fn lemma_dir_named(acc: ScanView, p: Path)
    requires
        names_given(acc),
    ensures
        names_given(with_scanned_dir(acc, p)),
        names_kept(acc, with_scanned_dir(acc, p)),
{
    let r = with_scanned_dir(acc, p);
    assert forall|k: Set<Name>| #[trigger] r.tagdirs.contains_key(k) implies exists|q: Path|
        r.tagdirs[k].contains(q) by {
        if k == name_tags(p) {
            assert(r.tagdirs[k].contains(p));
        } else {
            assert(acc.tagdirs.contains_key(k));
            assert(r.tagdirs[k] == acc.tagdirs[k]);
        }
    }
}

proof fn lemma_file_named(acc: ScanView, p: Path, own: Name)
    requires
        names_given(acc),
        p.len() > 0,
        text_of(p.last()) == own,
    ensures
        names_given(with_scanned_file(acc, p, own)),
        names_kept(acc, with_scanned_file(acc, p, own)),
{
    let r = with_scanned_file(acc, p, own);
    let known = acc.files.dom();
    let bn = free_bn(own, known);
    free_name_is_free(own, known);
    assert(r.files.dom() =~= known.insert(bn));
    assert forall|n: Name| #[trigger] r.files.contains_key(n) implies r.files[n].ffn.len() > 0
        && goes_by(r.files.dom(), text_of(r.files[n].ffn.last()), n) by {
        if n == bn {
            if bn != own {
                let i = choose|i: nat| first_free(own, known, i) && bn == numbered(own, i);
                assert(bn == numbered(own, i));
                assert(goes_by(known, own, bn));
                lemma_goes_by_more(known, r.files.dom(), own, bn);
            }
        } else {
            assert(acc.files.contains_key(n));
            lemma_goes_by_more(known, r.files.dom(), text_of(acc.files[n].ffn.last()), n);
        }
    }
    let tags = file_tags(p);
    let dir = dir_of(p);
    assert forall|k: Set<Name>| #[trigger] r.tagdirs.contains_key(k) implies exists|q: Path|
        r.tagdirs[k].contains(q) by {
        if k == tags {
            assert(r.tagdirs[k].contains(dir));
        } else {
            assert(acc.tagdirs.contains_key(k));
            assert(r.tagdirs[k] == acc.tagdirs[k]);
        }
    }
}

proof fn lemma_entry_named(acc: ScanView, dir: Path, e: Found, show_hidden: bool)
    requires
        names_given(acc),
        entry_ok(e),
    ensures
        names_given(scan_entry(acc, dir, e, show_hidden)),
        names_kept(acc, scan_entry(acc, dir, e, show_hidden)),
    decreases e,
{
    let p = dir.push(e.name@);
    lemma_join_name(dir, e.name@);
    if shown(e.name@, show_hidden) {
        if e.target == Some(Kind::Dir) {
            lemma_dir_named(acc, p);
            if goes_on(e) {
                lemma_entries_named(with_scanned_dir(acc, p), p, e.inside@, show_hidden);
            }
        } else if e.target == Some(Kind::File) {
            lemma_file_named(acc, p, text_of(e.name@));
        }
    }
}

proof fn lemma_entries_named(acc: ScanView, dir: Path, inside: Seq<Found>, show_hidden: bool)
    requires
        names_given(acc),
        entries_ok(inside),
    ensures
        names_given(scan_entries(acc, dir, inside, show_hidden)),
        names_kept(acc, scan_entries(acc, dir, inside, show_hidden)),
    decreases inside,
{
    if inside.len() > 0 {
        lemma_entries_named(acc, dir, inside.drop_last(), show_hidden);
        lemma_entry_named(
            scan_entries(acc, dir, inside.drop_last(), show_hidden),
            dir,
            inside.last(),
            show_hidden,
        );
    }
}

/// A scan gives every file its own name, or a numbered form of it where other files
/// have the name and the lower numbers. Every set of tags that it knows has a
/// directory.
pub proof fn scan_names_files_after_themselves(top: Seq<Found>, show_hidden: bool)
    requires
        entries_ok(top),
    ensures
        ({
            let scan = scan_entries(empty_scan(), Seq::empty(), top, show_hidden);
            &&& forall|n: Name| #[trigger]
                scan.files.contains_key(n) ==> scan.files[n].ffn.len() > 0 && goes_by(
                    scan.files.dom(),
                    text_of(scan.files[n].ffn.last()),
                    n,
                )
            &&& forall|k: Set<Name>| #[trigger]
                scan.tagdirs.contains_key(k) ==> exists|p: Path| scan.tagdirs[k].contains(p)
        }),
{
    lemma_entries_named(empty_scan(), Seq::empty(), top, show_hidden);
}

/// What comes later in a directory changes no name that was given, and takes no
/// directory away.
pub proof fn later_entries_change_no_names(top: Seq<Found>, last: Found, show_hidden: bool)
    requires
        entries_ok(top.push(last)),
    ensures
        ({
            let before = scan_entries(empty_scan(), Seq::empty(), top, show_hidden);
            let after = scan_entries(empty_scan(), Seq::empty(), top.push(last), show_hidden);
            &&& forall|n: Name| #[trigger]
                before.files.contains_key(n) ==> after.files.contains_key(n) && after.files[n]
                    == before.files[n]
            &&& forall|k: Set<Name>, p: Path|
                #![trigger before.tagdirs[k].contains(p)]
                before.tagdirs.contains_key(k) && before.tagdirs[k].contains(p)
                    ==> after.tagdirs.contains_key(k) && after.tagdirs[k].contains(p)
        }),
{
    assert(top.push(last).drop_last() =~= top);
    assert(top.push(last).last() == last);
    lemma_entries_named(empty_scan(), Seq::empty(), top, show_hidden);
    lemma_entry_named(
        scan_entries(empty_scan(), Seq::empty(), top, show_hidden),
        Seq::empty(),
        last,
        show_hidden,
    );
}

/// A name is its stem and its extension. The extension begins with the last dot,
/// unless that is the first character or there is none.
pub proof fn extensions_begin_with_the_last_dot(name: Name)
    ensures
        ({
            let (stem, ext) = stem_and_ext(name);
            &&& stem + ext == name
            &&& ext.len() > 0 ==> stem.len() > 0 && ext[0] == '.'
            &&& forall|j: int| 1 <= j < ext.len() ==> #[trigger] ext[j] != '.'
            &&& ext.len() == 0 ==> forall|j: int| 1 <= j < name.len() ==> #[trigger] name[j] != '.'
        }),
{
    let (stem, ext) = stem_and_ext(name);
    if exists|k: int| k > 0 && #[trigger] last_dot(name, k) {
        let k = choose|k: int| k > 0 && #[trigger] last_dot(name, k);
        assert(name.take(k) + name.skip(k) =~= name);
        assert forall|j: int| 1 <= j < ext.len() implies #[trigger] ext[j] != '.' by {
            assert(ext[j] == name[k + j]);
        }
    } else {
        assert(stem + ext =~= name);
        lemma_no_dot(name, name.len() as int);
    }
}

proof fn lemma_no_dot(name: Name, n: int)
    requires
        1 <= n <= name.len() || n == name.len(),
        forall|j: int| n <= j < name.len() ==> #[trigger] name[j] != '.',
        !exists|k: int| k > 0 && #[trigger] last_dot(name, k),
    ensures
        forall|j: int| 1 <= j < name.len() ==> #[trigger] name[j] != '.',
    decreases n,
{
    if n > 1 {
        if name[n - 1] == '.' {
            assert(last_dot(name, n - 1));
        }
        lemma_no_dot(name, n - 1);
    }
}

/// The number that characters spell.
pub open spec fn value_of(s: Seq<char>) -> int
    decreases s.len(),
{
    if s.len() == 0 {
        0
    } else {
        value_of(s.drop_last()) * 10 + (s.last() as int - '0' as int)
    }
}

/// A number is spelled in digits, without a zero in front.
pub proof fn numbers_are_spelled_in_digits(n: nat)
    ensures
        value_of(decimal(n)) == n,
        decimal(n).len() > 0,
        forall|i: int| 0 <= i < decimal(n).len() ==> '0' <= #[trigger] decimal(n)[i] <= '9',
        n > 0 ==> decimal(n)[0] != '0',
    decreases n,
{
    let last = digit((n % 10) as int);
    assert(last as int == '0' as int + n % 10);
    if n < 10 {
        assert(decimal(n).drop_last() =~= Seq::<char>::empty());
        assert(decimal(n).last() == last);
        assert(value_of(Seq::<char>::empty()) == 0);
        assert(value_of(decimal(n)) == value_of(decimal(n).drop_last()) * 10 + (last as int
            - '0' as int));
    } else {
        numbers_are_spelled_in_digits(n / 10);
        assert(decimal(n).drop_last() =~= decimal(n / 10));
        assert(decimal(n).last() == last);
        assert(value_of(decimal(n)) == (n / 10) * 10 + n % 10);
    }
}

/// The numbered form of a name has the mark and the number between the stem and
/// the extension.
pub proof fn numbered_names_are_marked(bn: Name, i: nat)
    ensures
        ({
            let (stem, ext) = stem_and_ext(bn);
            numbered(bn, i) == stem + ".__"@ + decimal(i) + ext
        }),
{
    reveal_strlit(".__");
    assert(".__"@ =~= seq!['.', '_', '_']);
}

/// Beside names that are taken a name becomes its first numbered form that is not;
/// one that is not taken stays as it is.
pub proof fn free_names_are_the_first_ones(bn: Name, taken: Set<Name>)
    requires
        taken.finite(),
    ensures
        !taken.contains(free_bn(bn, taken)),
        !taken.contains(bn) ==> free_bn(bn, taken) == bn,
        goes_by(taken, bn, free_bn(bn, taken)),
{
    free_name_is_free(bn, taken);
    if taken.contains(bn) {
        let i = choose|i: nat| first_free(bn, taken, i) && free_bn(bn, taken) == numbered(bn, i);
        assert(free_bn(bn, taken) == numbered(bn, i));
    }
}

} // verus!
