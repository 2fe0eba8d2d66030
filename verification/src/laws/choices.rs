//! Which directory is taken for a set of tags, and how names and paths stand in
//! order.
use vstd::prelude::*;
use vstd::utf8::*;

use crate::laws::filed::{directory_for_tags_has_them, filed, lemma_dirs_finite};
use crate::laws::outcomes::{other_dirs_kept, tags_kept};
use crate::laws::plain::{lemma_path_of_plain, plain, plain_path, plain_tags};
use crate::laws::runs::{accepted, asked_for, run};
use crate::names::{lemma_sorted_names, lemma_sorted_paths, sorted_names, Name, Path};
use crate::ops::{OpView, OutcomeView, Reply, StepView};
use crate::order::{byte_lt, bytes_before, lex_at, name_before, Key};
use crate::path::{comp_lt, is_name, path_before, root_comp, FsPath, SLASH};
use crate::scanner::name_tags;
use crate::sorted_set::in_order;
use crate::state::FsView;
use crate::tagfs::TagView;
use crate::text::{lemma_text_of_encoded, text_of};

verus! {

/// The bytes agree up to place `k`, where `a` ends or has the smaller byte.
pub open spec fn smaller_at(a: Seq<u8>, b: Seq<u8>, k: int) -> bool {
    &&& 0 <= k <= a.len() && k < b.len()
    &&& a.take(k) == b.take(k)
    &&& k == a.len() || a[k] < b[k]
}

proof fn lemma_smaller(a: Seq<u8>, b: Seq<u8>)
    ensures
        bytes_before(a, b) <==> exists|k: int| #[trigger] smaller_at(a, b, k),
{
    if bytes_before(a, b) {
        let k = choose|k: int| #[trigger] lex_at(a, b, byte_lt(), k);
        assert(a.take(k) =~= b.take(k));
        assert(smaller_at(a, b, k));
    }
    if exists|k: int| #[trigger] smaller_at(a, b, k) {
        let k = choose|k: int| #[trigger] smaller_at(a, b, k);
        assert forall|i: int| 0 <= i < k implies #[trigger] a[i] == b[i] by {
            assert(a.take(k)[i] == b.take(k)[i]);
        }
        assert(lex_at(a, b, byte_lt(), k));
    }
}

/// Names stand in the order of their bytes.
pub proof fn names_stand_in_order_of_bytes(a: Name, b: Name)
    ensures
        name_before(a, b) <==> exists|k: int| #[trigger]
            smaller_at(encode_utf8(a), encode_utf8(b), k),
{
    lemma_smaller(encode_utf8(a), encode_utf8(b));
}

/// The paths agree up to place `k`, where `p` ends or has the name that comes first
/// by its bytes.
pub open spec fn earlier_at(p: Path, q: Path, k: int) -> bool {
    &&& 0 <= k <= p.len() && k < q.len()
    &&& p.take(k) == q.take(k)
    &&& k == p.len() || exists|j: int| #[trigger] smaller_at(p[k], q[k], j)
}

/// Paths stand in the order of their names, one by one.
pub proof fn paths_stand_in_order_of_names(p: Path, q: Path)
    requires
        plain_path(p),
        plain_path(q),
    ensures
        path_before(p, q) <==> exists|k: int| #[trigger] earlier_at(p, q, k),
{
    if path_before(p, q) {
        let k = choose|k: int| #[trigger] lex_at(p, q, comp_lt(), k);
        assert(p.take(k) =~= q.take(k));
        if k < p.len() {
            lemma_smaller(p[k], q[k]);
            lemma_comps(p[k], q[k]);
        }
        assert(earlier_at(p, q, k));
    }
    if exists|k: int| #[trigger] earlier_at(p, q, k) {
        let k = choose|k: int| #[trigger] earlier_at(p, q, k);
        assert forall|i: int| 0 <= i < k implies #[trigger] p[i] == q[i] by {
            assert(p.take(k)[i] == q.take(k)[i]);
        }
        if k < p.len() {
            lemma_smaller(p[k], q[k]);
            lemma_comps(p[k], q[k]);
        }
        assert(lex_at(p, q, comp_lt(), k));
    }
}

proof fn lemma_comps(a: Seq<u8>, b: Seq<u8>)
    requires
        is_name(a),
        is_name(b),
    ensures
        comp_lt()(a, b) == bytes_before(a, b),
{
    assert(a != root_comp()) by {
        if a == root_comp() {
            assert(a[0] == SLASH);
            assert(a.contains(a[0]));
        }
    }
    assert(b != root_comp()) by {
        if b == root_comp() {
            assert(b[0] == SLASH);
            assert(b.contains(b[0]));
        }
    }
}

/// Where a set of tags has directories, the first of them is taken.
pub proof fn first_directory_is_taken(s: FsView, tags: Set<Name>, p: Path)
    requires
        filed(s),
        s.tagdirs.contains_key(tags),
        s.tagdirs[tags].contains(p),
    ensures
        s.tagdirs[tags].contains(s.dir_for_tags(tags)),
        p == s.dir_for_tags(tags) || path_before(s.dir_for_tags(tags), p),
{
    let dirs = s.tagdirs[tags];
    let q = in_order::<FsPath>(dirs);
    lemma_dirs_finite(s.tagdirs, tags);
    lemma_sorted_paths(dirs);
    assert(dirs != Set::<Path>::empty());
    assert(q.to_set().contains(p));
    let i = choose|i: int| 0 <= i < q.len() && q[i] == p;
    assert(q.to_set().contains(q[0]));
    if i > 0 {
        assert(<FsPath as Key>::before(q[0], q[i]));
    }
}

/// Where a set of tags has no directory, one is taken that is named after the tags,
/// each once and in order.
pub proof fn new_directories_are_named_after_their_tags(s: FsView, tags: Set<Name>)
    requires
        plain_tags(tags),
        s.tagdirs.contains_key(tags) ==> s.tagdirs[tags] == Set::<Path>::empty(),
    ensures
        ({
            let p = s.dir_for_tags(tags);
            &&& p.len() == tags.len()
            &&& name_tags(p) == tags
            &&& forall|i: int|
                0 <= i < p.len() ==> tags.contains(text_of(#[trigger] p[i])) && p[i]
                    == encode_utf8(text_of(p[i]))
            &&& forall|i: int, j: int|
                0 <= i < j < p.len() ==> name_before(
                    text_of(#[trigger] p[i]),
                    text_of(#[trigger] p[j]),
                )
        }),
{
    let q = sorted_names(tags);
    let p = s.dir_for_tags(tags);
    lemma_sorted_names(tags);
    assert forall|i: int| 0 <= i < q.len() implies plain(#[trigger] q[i]) by {
        assert(q.to_set().contains(q[i]));
    }
    lemma_path_of_plain(q);
    assert forall|i: int| 0 <= i < p.len() implies text_of(#[trigger] p[i]) == q[i] && p[i]
        == encode_utf8(q[i]) by {
        lemma_text_of_encoded(q[i]);
    }
    assert forall|i: int| 0 <= i < p.len() implies tags.contains(text_of(#[trigger] p[i])) by {
        assert(q.to_set().contains(q[i]));
    }
    assert forall|i: int, j: int| 0 <= i < j < p.len() implies name_before(
        text_of(#[trigger] p[i]),
        text_of(#[trigger] p[j]),
    ) by {
        assert(<String as Key>::before(q[i], q[j]));
    }
}

/// A directory for a set of tags can always be asked for. It has these tags, and is
/// known when it was had. An operation is asked for only where there are tags and
/// none of their directories is known. It makes that directory. Nothing else
/// changes.
pub proof fn directories_for_tags_can_be_had(
    fs: TagView,
    tags: Set<Name>,
    replies: Seq<Reply>,
    after: TagView,
    outcome: OutcomeView,
)
    requires
        filed(fs.state),
        plain_tags(tags),
        run(fs.dir_step(tags), replies) == StepView::End(after, Ok(outcome)),
    ensures
        outcome matches OutcomeView::Dir(p) && {
            &&& name_tags(p) == tags
            &&& plain_path(p)
            &&& after.state.tagdirs.contains_key(tags)
            &&& after.state.tagdirs[tags].contains(p)
            &&& if tags == Set::<Name>::empty() || exists|q: Path|
                fs.state.tagdirs.contains_key(tags) && fs.state.tagdirs[tags].contains(q) {
                asked_for(fs.dir_step(tags), replies) == Seq::<OpView>::empty()
            } else {
                asked_for(fs.dir_step(tags), replies) == seq![OpView::CreateDirAll(fs.full(p))]
            }
        },
        after.state.files == fs.state.files,
        after.state.inodes == fs.state.inodes,
        after.root == fs.root,
        other_dirs_kept(fs, after, tags),
        tags_kept(fs, after, tags),
{
    reveal_with_fuel(run, 3);
    reveal_with_fuel(asked_for, 3);
    let s = fs.state;
    directory_for_tags_has_them(s, tags);
    if s.knows_dir(tags) {
        if forall|q: Path| !s.tagdirs[tags].contains(q) {
            assert(s.tagdirs[tags] =~= Set::<Path>::empty());
        }
    }
}

/// A directory for a set of tags is never refused.
pub proof fn directories_for_tags_are_not_refused(fs: TagView, tags: Set<Name>)
    ensures
        accepted(fs.dir_step(tags)),
{
}

} // verus!
