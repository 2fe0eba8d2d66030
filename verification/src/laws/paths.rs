//! Paths and the bytes that spell them.
use vstd::prelude::*;

use crate::laws::plain::lemma_one_piece;
use crate::names::Path;
use crate::path::{
    comp_ok, counts, here_comp, parse_path, path_join, path_ok, path_parent, path_text, pieces,
    root_comp, slashed, DOT, SLASH,
};

verus! {

proof fn lemma_pieces_append(x: Seq<u8>, c: Seq<u8>)
    requires
        !c.contains(SLASH),
    ensures
        pieces(x.push(SLASH) + c) == pieces(x).push(c),
    decreases c.len(),
{
    let b = x.push(SLASH) + c;
    if c.len() == 0 {
        assert(b =~= x.push(SLASH));
        assert(b.drop_last() =~= x);
        assert(c =~= Seq::<u8>::empty());
    } else {
        let most = c.drop_last();
        assert(!most.contains(SLASH)) by {
            if most.contains(SLASH) {
                let i = choose|i: int| 0 <= i < most.len() && most[i] == SLASH;
                assert(c[i] == SLASH);
            }
        }
        lemma_pieces_append(x, most);
        assert(b.drop_last() =~= x.push(SLASH) + most);
        assert(b.last() == c.last());
        assert(c.contains(c.last()));
        let p = pieces(b.drop_last());
        assert(p.drop_last() =~= pieces(x));
        assert(most.push(c.last()) =~= c);
    }
}

/// No component of a path holds a slash.
#[verifier::opaque]
spec fn no_slashes(q: Path) -> bool {
    forall|i: int| 0 <= i < q.len() ==> !(#[trigger] q[i]).contains(SLASH)
}

proof fn lemma_no_slashes(q: Path)
    requires
        no_slashes(q),
        q.len() > 0,
    ensures
        no_slashes(q.drop_last()),
        !q.last().contains(SLASH),
{
    reveal(no_slashes);
    let most = q.drop_last();
    assert(!q[q.len() - 1].contains(SLASH));
    assert forall|i: int| 0 <= i < most.len() implies !(#[trigger] most[i]).contains(SLASH) by {
        assert(most[i] == q[i]);
    }
}

proof fn lemma_pieces_slashed(names: Path)
    requires
        names.len() > 0,
        no_slashes(names),
    ensures
        pieces(slashed(names)) == names,
        pieces(root_comp() + slashed(names)) == seq![Seq::<u8>::empty()] + names,
    decreases names.len(),
{
    let none = Seq::<u8>::empty();
    let last = names.last();
    lemma_no_slashes(names);
    if names.len() == 1 {
        lemma_one_piece(last);
        assert(names =~= seq![last]);
        lemma_pieces_append(none, last);
        assert(root_comp() + last =~= none.push(SLASH) + last);
        assert(pieces(none) =~= seq![none]);
        assert(seq![none].push(last) =~= seq![none] + names);
    } else {
        let most = names.drop_last();
        lemma_pieces_slashed(most);
        lemma_pieces_append(slashed(most), last);
        assert(most.push(last) =~= names);
        let x = root_comp() + slashed(most);
        lemma_pieces_append(x, last);
        assert(root_comp() + slashed(names) =~= x.push(SLASH) + last);
        assert((seq![none] + most).push(last) =~= seq![none] + names);
    }
}

proof fn lemma_filter_step(q: Path)
    ensures
        q.len() == 0 ==> q.filter(counts()) == q,
        q.len() > 0 ==> q.filter(counts()) == (if counts()(q.last()) {
            q.drop_last().filter(counts()).push(q.last())
        } else {
            q.drop_last().filter(counts())
        }),
{
    reveal(Seq::filter);
    if q.len() == 0 {
        assert(q.filter(counts()) =~= q);
    }
}

/// All components of a path count.
#[verifier::opaque]
spec fn all_count(q: Path) -> bool {
    forall|i: int| 0 <= i < q.len() ==> counts()(#[trigger] q[i])
}

proof fn lemma_all_count(q: Path)
    requires
        all_count(q),
        q.len() > 0,
    ensures
        all_count(q.drop_last()),
        counts()(q.last()),
{
    reveal(all_count);
    let most = q.drop_last();
    assert(counts()(q[q.len() - 1]));
    assert forall|i: int| 0 <= i < most.len() implies counts()(#[trigger] most[i]) by {
        assert(most[i] == q[i]);
    }
}

proof fn lemma_filter_counting(q: Path)
    requires
        all_count(q),
    ensures
        q.filter(counts()) == q,
    decreases q.len(),
{
    lemma_filter_step(q);
    if q.len() > 0 {
        lemma_all_count(q);
        lemma_filter_counting(q.drop_last());
        assert(q.drop_last().push(q.last()) =~= q);
    }
}

/// What does not count at the front is left out.
proof fn lemma_filter_head(h: Seq<u8>, q: Path)
    requires
        !counts()(h),
        all_count(q),
    ensures
        (seq![h] + q).filter(counts()) == q,
{
    let one = seq![h];
    let none = Seq::<Seq<u8>>::empty();
    lemma_filter_step(one);
    lemma_filter_step(none);
    assert(one.drop_last() =~= none);
    assert(one.last() == h);
    lemma_filter_counting(q);
    Seq::filter_distributes_over_add(one, q, counts());
    assert(none + q =~= q);
}

proof fn lemma_lone_root(b: Seq<u8>)
    requires
        b == root_comp() + slashed(Seq::empty()),
    ensures
        pieces(b).filter(counts()) == Seq::<Seq<u8>>::empty(),
{
    let none = Seq::<u8>::empty();
    let one = seq![none];
    let two = one.push(none);
    assert(b =~= none.push(SLASH) + none);
    lemma_pieces_append(none, none);
    assert(pieces(none) =~= one);
    lemma_filter_step(two);
    lemma_filter_step(one);
    lemma_filter_step(Seq::empty());
    assert(two.drop_last() =~= one);
    assert(two.last() == none);
    assert(one.drop_last() =~= Seq::<Seq<u8>>::empty());
    assert(one.last() == none);
    assert(!counts()(none));
}

/// What follows the front of a path counts and holds no slashes.
proof fn lemma_rest(p: Path)
    requires
        path_ok(p),
        p.len() > 0,
    ensures
        all_count(p.skip(1)),
        no_slashes(p.skip(1)),
        p == seq![p[0]] + p.skip(1),
        p[0] != root_comp() ==> no_slashes(p) && p[0].len() > 0,
        p[0] != root_comp() && p[0] != here_comp() ==> all_count(p),
{
    reveal(all_count);
    reveal(no_slashes);
    let rest = p.skip(1);
    assert forall|i: int| 0 <= i < rest.len() implies counts()(#[trigger] rest[i])
        && !rest[i].contains(SLASH) by {
        assert(rest[i] == p[i + 1]);
        assert(comp_ok(p[i + 1], i + 1));
    }
    assert(p =~= seq![p[0]] + rest);
    assert(comp_ok(p[0], 0));
    assert forall|i: int| 0 <= i < p.len() implies comp_ok(#[trigger] p[i], i) by {}
    if p[0] == here_comp() {
        assert(!here_comp().contains(SLASH));
    }
}

proof fn lemma_spell_rooted(p: Path)
    requires
        path_ok(p),
        p.len() > 0,
        p[0] == root_comp(),
    ensures
        parse_path(path_text(p)) == p,
{
    let none = Seq::<u8>::empty();
    let rest = p.skip(1);
    let b = path_text(p);
    assert(b[0] == SLASH);
    lemma_rest(p);
    assert(pieces(b).filter(counts()) == rest) by {
        if rest.len() == 0 {
            assert(rest =~= Seq::<Seq<u8>>::empty());
            lemma_lone_root(b);
        } else {
            lemma_pieces_slashed(rest);
            lemma_filter_head(none, rest);
        }
    }
}

proof fn lemma_spell_relative(p: Path)
    requires
        path_ok(p),
        p.len() > 0,
        p[0] != root_comp(),
    ensures
        parse_path(path_text(p)) == p,
{
    let b = path_text(p);
    lemma_rest(p);
    lemma_pieces_slashed(p);
    lemma_first_byte(p);
    assert(b[0] != SLASH) by {
        reveal(no_slashes);
        assert(!p[0].contains(SLASH));
    }
    if p[0] == here_comp() {
        lemma_filter_head(here_comp(), p.skip(1));
    } else {
        lemma_filter_counting(p);
        assert(Seq::<Seq<u8>>::empty() + p =~= p);
    }
}

/// The bytes of a path spell that path.
pub proof fn path_bytes_spell_the_path(p: Path)
    requires
        path_ok(p),
    ensures
        parse_path(path_text(p)) == p,
{
    if p.len() == 0 {
        let none = Seq::<u8>::empty();
        assert(path_text(p) =~= none);
        let q = seq![none];
        assert(pieces(none) =~= q);
        lemma_filter_step(q);
        assert(q.drop_last() =~= p);
        lemma_filter_step(p);
        assert(parse_path(none) =~= p);
    } else if p[0] == root_comp() {
        lemma_spell_rooted(p);
    } else {
        lemma_spell_relative(p);
    }
}

/// A path that does not begin at the root does not begin with a slash.
proof fn lemma_first_byte(p: Path)
    requires
        p.len() > 0,
        p[0].len() > 0,
    ensures
        slashed(p).len() > 0,
        slashed(p)[0] == p[0][0],
        p[0].contains(slashed(p)[0]),
    decreases p.len(),
{
    if p.len() > 1 {
        lemma_first_byte(p.drop_last());
    }
}

/// Bytes without a slash spell one component, or nothing where there are none.
pub proof fn bytes_without_slash_are_one_component(c: Seq<u8>)
    requires
        !c.contains(SLASH),
    ensures
        c.len() == 0 ==> parse_path(c) == Seq::<Seq<u8>>::empty(),
        c.len() > 0 ==> parse_path(c) == seq![c],
        c.len() == 0 || c == seq![DOT] ==> parse_path(seq![SLASH] + c) == seq![seq![SLASH]],
        c.len() > 0 && c != seq![DOT] ==> parse_path(seq![SLASH] + c) == seq![seq![SLASH], c],
{
    lemma_one_piece(c);
    let none = Seq::<Seq<u8>>::empty();
    let q = seq![c];
    lemma_filter_step(q);
    assert(q.drop_last() =~= none);
    lemma_filter_step(none);
    if c.len() > 0 && c[0] == SLASH {
        assert(c.contains(c[0]));
    }
    if c.len() == 0 {
        assert(parse_path(c) =~= none);
    } else {
        assert(parse_path(c) =~= seq![c]);
    }
    let empty = Seq::<u8>::empty();
    let b = seq![SLASH] + c;
    assert(b =~= empty.push(SLASH) + c);
    lemma_pieces_append(empty, c);
    let r = pieces(empty).push(c);
    assert(pieces(empty) =~= seq![empty]);
    lemma_filter_step(r);
    assert(r.drop_last() =~= seq![empty]);
    lemma_filter_step(seq![empty]);
    assert(seq![empty].drop_last() =~= none);
    assert(b[0] == SLASH);
    if c.len() > 0 && c != here_comp() {
        assert(parse_path(b) =~= seq![root_comp(), c]);
    } else {
        assert(parse_path(b) =~= seq![root_comp()]);
    }
}

proof fn lemma_some_piece(b: Seq<u8>)
    ensures
        pieces(b).len() > 0,
    decreases b.len(),
{
    if b.len() > 0 {
        lemma_some_piece(b.drop_last());
    }
}

/// A slash and bytes without one add a component. Where there are no bytes, or just
/// a dot, they add nothing.
pub proof fn slashes_part_components(x: Seq<u8>, c: Seq<u8>)
    requires
        x.len() > 0,
        !c.contains(SLASH),
    ensures
        c.len() == 0 || c == seq![DOT] ==> parse_path(x.push(SLASH) + c) == parse_path(x),
        c.len() > 0 && c != seq![DOT] ==> parse_path(x.push(SLASH) + c) == parse_path(x).push(c),
{
    let b = x.push(SLASH) + c;
    let q = pieces(x);
    lemma_pieces_append(x, c);
    lemma_some_piece(x);
    lemma_filter_step(q.push(c));
    assert(q.push(c).drop_last() =~= q);
    assert(b[0] == x[0]);
    assert(q.push(c)[0] == q[0]);
    if c.len() > 0 && c != here_comp() {
        assert(parse_path(b) =~= parse_path(x).push(c));
    } else {
        assert(parse_path(b) =~= parse_path(x));
    }
}

/// A path is spelled by its components with slashes between them, after a slash
/// where it begins at the root.
pub proof fn components_are_spelled_in_turn(p: Path, c: Seq<u8>)
    requires
        c != seq![SLASH],
    ensures
        path_text(Seq::empty()) == Seq::<u8>::empty(),
        path_text(seq![c]) == c,
        path_text(seq![seq![SLASH]]) == seq![SLASH],
        path_text(seq![seq![SLASH], c]) == seq![SLASH] + c,
        p.len() > 0 && p != seq![seq![SLASH]] ==> path_text(p.push(c)) == path_text(p).push(SLASH)
            + c,
{
    let root = seq![root_comp()];
    assert(root.skip(1) =~= Seq::<Seq<u8>>::empty());
    assert(path_text(root) =~= seq![SLASH]);
    assert(seq![root_comp(), c].skip(1) =~= seq![c]);
    if p.len() > 0 && p != root {
        let q = p.push(c);
        assert(q[0] == p[0]);
        if p[0] == root_comp() {
            if p.len() == 1 {
                assert(p =~= root);
            }
            let r = q.skip(1);
            assert(r.drop_last() =~= p.skip(1));
            assert(r.last() == c);
            assert(path_text(q) =~= path_text(p).push(SLASH) + c);
        } else {
            assert(q.drop_last() =~= p);
            assert(q.last() == c);
        }
    }
}

/// A path is joined to another by its components, but for a dot in front. One that
/// begins at the root stays as it is.
pub proof fn joined_paths_follow_each_other(a: Path, b: Path)
    requires
        path_ok(b),
    ensures
        b.len() > 0 && b[0] == seq![SLASH] ==> path_join(a, b) == b,
        a.len() == 0 ==> path_join(a, b) == b,
        a.len() > 0 && b.len() > 0 && b[0] == seq![DOT] ==> path_join(a, b) == a + b.drop_first(),
        a.len() > 0 && (b.len() > 0 ==> b[0] != seq![SLASH] && b[0] != seq![DOT]) ==> path_join(
            a,
            b,
        ) == a + b,
{
    if b.len() > 0 {
        assert(b.skip(1) =~= b.drop_first());
        assert(here_comp()[0] != root_comp()[0]);
    }
}

/// The parent of a path lacks its last component. The root and the empty path have
/// none.
pub proof fn parents_lack_the_last_component(p: Path, c: Seq<u8>)
    ensures
        path_parent(Seq::empty()) is None,
        c == seq![SLASH] ==> path_parent(p.push(c)) is None,
        c != seq![SLASH] ==> path_parent(p.push(c)) == Some(p),
{
    assert(p.push(c).drop_last() =~= p);
}

} // verus!
