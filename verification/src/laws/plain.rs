//! Names that can stand for one entry of a directory, and paths made of them.
use vstd::prelude::*;
use vstd::utf8::*;

use crate::names::{Name, Path};
use crate::ops::placed;
use crate::order::lemma_encode_injective;
use crate::path::{
    counts, here_comp, is_name, leads_to, parse_path, path_join, path_of, pieces, relocated,
    root_comp, up_comp, DOT, SLASH,
};
use crate::scanner::{dir_of, file_tags, name_tags};
use crate::state::{renamed_tags, replaced, replaced_above};
use crate::text::{lemma_text_of_encoded, text_of};

verus! {

/// A name that can stand for one entry of a directory: not empty, without a
/// slash, and neither `.` nor `..`.
pub open spec fn plain(n: Name) -> bool {
    n.len() > 0 && !n.contains('/') && n != seq!['.'] && n != seq!['.', '.']
}

/// A path of names only, each of which has a plain text.
pub open spec fn plain_path(p: Path) -> bool {
    forall|i: int| 0 <= i < p.len() ==> is_name(#[trigger] p[i]) && plain(text_of(p[i]))
}

/// A finite set of plain names.
pub open spec fn plain_tags(tags: Set<Name>) -> bool {
    tags.finite() && forall|t: Name| #[trigger] tags.contains(t) ==> plain(t)
}

proof fn lemma_wide_bytes(v: u32)
    ensures
        leading_byte_width_2(v) >= 0x80,
        leading_byte_width_3(v) >= 0x80,
        leading_byte_width_4(v) >= 0x80,
        last_continuation_byte(v) >= 0x80,
        second_last_continuation_byte(v) >= 0x80,
        third_last_continuation_byte(v) >= 0x80,
        v <= 0x7f ==> leading_byte_width_1(v) == v,
{
    assert(0xC0u8 | (((v >> 6) & 0x1F) as u8) >= 0x80) by (bit_vector);
    assert(0xE0u8 | (((v >> 12) & 0x0F) as u8) >= 0x80) by (bit_vector);
    assert(0xF0u8 | (((v >> 18) & 0x7) as u8) >= 0x80) by (bit_vector);
    assert(0x80u8 | ((v & 0x3F) as u8) >= 0x80) by (bit_vector);
    assert(0x80u8 | (((v >> 6) & 0x3F) as u8) >= 0x80) by (bit_vector);
    assert(0x80u8 | (((v >> 12) & 0x3F) as u8) >= 0x80) by (bit_vector);
    assert(v <= 0x7f ==> (v & 0x7F) as u8 == v) by (bit_vector);
}

proof fn lemma_encode_no_slash(n: Name)
    requires
        !n.contains('/'),
    ensures
        !encode_utf8(n).contains(SLASH),
    decreases n.len(),
{
    if n.len() > 0 {
        let rest = n.drop_first();
        assert(!rest.contains('/')) by {
            if rest.contains('/') {
                let i = choose|i: int| 0 <= i < rest.len() && rest[i] == '/';
                assert(n[i + 1] == '/');
            }
        }
        lemma_encode_no_slash(rest);
        let c = n[0];
        let v = c as u32;
        assert(n.contains(n[0]));
        assert(c != '/');
        char_is_scalar(c);
        char_u32_cast(c, v);
        assert(v != 47) by {
            if v == 47 {
                assert('/' == 47u32 as char);
            }
        }
        let b = encode_scalar(v);
        lemma_wide_bytes(v);
        let e = encode_utf8(n);
        assert(e == b + encode_utf8(rest));
        if e.contains(SLASH) {
            let i = choose|i: int| 0 <= i < e.len() && e[i] == SLASH;
            if i >= b.len() {
                assert(encode_utf8(rest)[i - b.len()] == SLASH);
            } else {
                assert(b[i] == SLASH);
            }
        }
    }
}

proof fn lemma_encode_dots()
    ensures
        encode_utf8(seq!['.']) == here_comp(),
        encode_utf8(seq!['.', '.']) == up_comp(),
{
    let one = seq!['.'];
    let two = seq!['.', '.'];
    let none = Seq::<char>::empty();
    assert(one.drop_first() =~= none);
    assert(two.drop_first() =~= one);
    lemma_wide_bytes('.' as u32);
    assert(encode_scalar('.' as u32) =~= seq![DOT]);
    assert(encode_utf8(none) =~= Seq::<u8>::empty());
    assert(encode_utf8(one) =~= here_comp());
    assert(encode_utf8(two) =~= up_comp());
}

/// A plain name is one component when it is turned into bytes.
pub proof fn lemma_encode_plain(n: Name)
    requires
        plain(n),
    ensures
        is_name(encode_utf8(n)),
        text_of(encode_utf8(n)) == n,
{
    lemma_encode_no_slash(n);
    lemma_encode_dots();
    lemma_text_of_encoded(n);
    let e = encode_utf8(n);
    if e == here_comp() {
        lemma_encode_injective(n, seq!['.']);
    }
    if e == up_comp() {
        lemma_encode_injective(n, seq!['.', '.']);
    }
    assert(e.len() > 0) by {
        if e.len() == 0 {
            let none = Seq::<char>::empty();
            assert(encode_utf8(none) =~= e);
            lemma_encode_injective(n, none);
        }
    }
}

pub(crate) proof fn lemma_one_piece(b: Seq<u8>)
    requires
        !b.contains(SLASH),
    ensures
        pieces(b) == seq![b],
    decreases b.len(),
{
    if b.len() > 0 {
        let rest = b.drop_last();
        assert(!rest.contains(SLASH)) by {
            if rest.contains(SLASH) {
                let i = choose|i: int| 0 <= i < rest.len() && rest[i] == SLASH;
                assert(b[i] == SLASH);
            }
        }
        lemma_one_piece(rest);
        assert(b.contains(b.last()));
        assert(pieces(b) =~= seq![b]) by {
            assert(rest.push(b.last()) =~= b);
        }
    } else {
        assert(b =~= Seq::<u8>::empty());
    }
}

/// A name spells the path of that one component.
pub proof fn lemma_parse_name(c: Seq<u8>)
    requires
        is_name(c),
    ensures
        parse_path(c) == seq![c],
{
    lemma_one_piece(c);
    let q = seq![c];
    assert(c[0] != SLASH) by {
        assert(c.contains(c[0]));
    }
    assert(q.filter(counts()) =~= q) by {
        reveal(Seq::filter);
        assert(q.drop_last() =~= Seq::<Seq<u8>>::empty());
        assert(q.drop_last().filter(counts()) =~= Seq::<Seq<u8>>::empty());
        assert(q.last() == c);
        assert(counts()(c));
    }
    assert(parse_path(c) =~= q);
}

/// Joining a name adds one component.
pub proof fn lemma_join_name(p: Path, c: Seq<u8>)
    requires
        is_name(c),
    ensures
        path_join(p, parse_path(c)) == p.push(c),
{
    lemma_parse_name(c);
    assert(c != root_comp()) by {
        if c == root_comp() {
            assert(c[0] == SLASH);
            assert(c.contains(c[0]));
        }
    }
    assert(path_join(p, seq![c]) =~= p.push(c));
}

/// A file with a plain name is right below its directory.
pub proof fn lemma_placed(dir: Path, bn: Name)
    requires
        plain(bn),
    ensures
        placed(dir, bn) == dir.push(encode_utf8(bn)),
        dir_of(placed(dir, bn)) == dir,
        file_tags(placed(dir, bn)) == name_tags(dir),
        plain_path(dir) ==> plain_path(placed(dir, bn)),
{
    lemma_encode_plain(bn);
    lemma_join_name(dir, encode_utf8(bn));
    lemma_below(dir, encode_utf8(bn));
}

/// What is right below a directory has that directory above it.
pub proof fn lemma_below(dir: Path, c: Seq<u8>)
    requires
        is_name(c),
    ensures
        dir_of(dir.push(c)) == dir,
        file_tags(dir.push(c)) == name_tags(dir),
{
    let p = dir.push(c);
    assert(p.last() != root_comp()) by {
        if c == root_comp() {
            assert(c[0] == SLASH);
            assert(c.contains(c[0]));
        }
    }
    assert(p.drop_last() =~= dir);
}

/// The directory of a plain path that is not empty is the path without its last
/// component.
pub proof fn lemma_plain_dir(p: Path)
    requires
        plain_path(p),
        p.len() > 0,
    ensures
        dir_of(p) == p.drop_last(),
        file_tags(p) == name_tags(p.drop_last()),
        plain_path(dir_of(p)),
{
    assert(p =~= p.drop_last().push(p.last()));
    lemma_below(p.drop_last(), p.last());
}

/// The tags of a directory with a plain path are plain.
pub proof fn lemma_name_tags_plain(p: Path)
    requires
        plain_path(p),
    ensures
        plain_tags(name_tags(p)),
        name_tags(p) == Seq::new(p.len(), |i: int| text_of(p[i])).to_set(),
{
    let q = Seq::new(p.len(), |i: int| text_of(p[i]));
    assert forall|t: Name| #[trigger] name_tags(p).contains(t) <==> q.to_set().contains(t) by {
        if name_tags(p).contains(t) {
            let i = choose|i: int| 0 <= i < p.len() && is_name(#[trigger] p[i]) && text_of(p[i]) == t;
            assert(q[i] == t);
        }
        if q.to_set().contains(t) {
            let i = choose|i: int| 0 <= i < q.len() && q[i] == t;
            assert(is_name(p[i]) && text_of(p[i]) == t);
        }
    }
    assert(name_tags(p) =~= q.to_set());
    vstd::seq_lib::seq_to_set_is_finite(q);
}

/// Plain names one below the other make a plain path with these names.
pub proof fn lemma_path_of_plain(names: Seq<Name>)
    requires
        forall|i: int| 0 <= i < names.len() ==> plain(#[trigger] names[i]),
    ensures
        path_of(names) == names.map_values(|n: Name| encode_utf8(n)),
        plain_path(path_of(names)),
        name_tags(path_of(names)) == names.to_set(),
    decreases names.len(),
{
    let f = |n: Name| encode_utf8(n);
    let p = names.map_values(f);
    if names.len() == 0 {
        assert(path_of(names) =~= p);
    } else {
        let rest = names.drop_last();
        assert forall|i: int| 0 <= i < rest.len() implies plain(#[trigger] rest[i]) by {
            assert(rest[i] == names[i]);
        }
        lemma_path_of_plain(rest);
        assert(plain(names[names.len() - 1]));
        lemma_encode_plain(names.last());
        lemma_join_name(path_of(rest), encode_utf8(names.last()));
        assert(p =~= rest.map_values(f).push(encode_utf8(names.last())));
    }
    assert forall|i: int| 0 <= i < p.len() implies is_name(#[trigger] p[i]) && plain(text_of(p[i]))
        && text_of(p[i]) == names[i] by {
        lemma_encode_plain(names[i]);
    }
    lemma_name_tags_plain(p);
    assert(Seq::new(p.len(), |i: int| text_of(p[i])) =~= names);
}

/// Replacing one tag by another in a path does the same to the tags of the path.
pub proof fn lemma_replaced(p: Path, old: Name, new: Name)
    requires
        plain_path(p),
        plain(new),
    ensures
        replaced(p, old, new).len() == p.len(),
        plain_path(replaced(p, old, new)),
        name_tags(replaced(p, old, new)) == renamed_tags(name_tags(p), old, new),
        !name_tags(p).contains(old) ==> replaced(p, old, new) == p,
        forall|i: int|
            0 <= i < p.len() ==> #[trigger] replaced(p, old, new)[i] == (if text_of(p[i]) == old {
                encode_utf8(new)
            } else {
                p[i]
            }),
{
    lemma_replaced_comps(p, old, new);
    lemma_encode_plain(new);
    let r = replaced(p, old, new);
    lemma_name_tags_plain(p);
    lemma_name_tags_plain(r);
    let was = Seq::new(p.len(), |i: int| text_of(p[i]));
    let now = Seq::new(r.len(), |i: int| text_of(r[i]));
    let t0 = renamed_tags(name_tags(p), old, new);
    assert forall|t: Name| #[trigger] now.to_set().contains(t) <==> t0.contains(t) by {
        if now.to_set().contains(t) {
            let i = choose|i: int| 0 <= i < now.len() && now[i] == t;
            assert(r[i] == (if text_of(p[i]) == old {
                encode_utf8(new)
            } else {
                p[i]
            }));
            assert(was.to_set().contains(was[i]));
        }
        if t0.contains(t) {
            if was.to_set().contains(t) && t != old {
                let i = choose|i: int| 0 <= i < was.len() && was[i] == t;
                assert(r[i] == p[i]);
                assert(now[i] == t);
            } else {
                let i = choose|i: int| 0 <= i < was.len() && was[i] == old;
                assert(was[i] == old);
                assert(r[i] == encode_utf8(new));
                assert(now[i] == new);
            }
        }
    }
    assert(now.to_set() =~= t0);
    if !name_tags(p).contains(old) {
        assert forall|i: int| 0 <= i < p.len() implies r[i] == p[i] by {
            assert(was.to_set().contains(was[i]));
        }
        assert(r =~= p);
    }
}

proof fn lemma_replaced_comps(p: Path, old: Name, new: Name)
    requires
        plain_path(p),
        plain(new),
    ensures
        replaced(p, old, new).len() == p.len(),
        plain_path(replaced(p, old, new)),
        forall|i: int|
            0 <= i < p.len() ==> #[trigger] replaced(p, old, new)[i] == (if text_of(p[i]) == old {
                encode_utf8(new)
            } else {
                p[i]
            }),
    decreases p.len(),
{
    if p.len() > 0 {
        let rest = p.drop_last();
        assert(plain_path(rest)) by {
            assert forall|i: int| 0 <= i < rest.len() implies is_name(#[trigger] rest[i]) && plain(
                text_of(rest[i]),
            ) by {
                assert(rest[i] == p[i]);
            }
        }
        lemma_replaced_comps(rest, old, new);
        lemma_encode_plain(new);
        let c = if text_of(p.last()) == old {
            encode_utf8(new)
        } else {
            p.last()
        };
        assert(is_name(p[p.len() - 1]));
        lemma_join_name(replaced(rest, old, new), c);
        lemma_parse_name(c);
        let r = replaced(p, old, new);
        assert(r == replaced(rest, old, new).push(c));
        assert forall|i: int| 0 <= i < p.len() implies #[trigger] r[i] == (if text_of(p[i])
            == old {
            encode_utf8(new)
        } else {
            p[i]
        }) by {
            if i < rest.len() {
                assert(rest[i] == p[i]);
                assert(r[i] == replaced(rest, old, new)[i]);
            }
        }
        assert forall|i: int| 0 <= i < r.len() implies is_name(#[trigger] r[i]) && plain(
            text_of(r[i]),
        ) by {
            assert(is_name(p[i]) && plain(text_of(p[i])));
        }
    }
}

/// Replacing a tag above a file does so in its directory and keeps its name.
pub proof fn lemma_replaced_above(p: Path, old: Name, new: Name)
    requires
        plain_path(p),
        p.len() > 0,
        plain(new),
    ensures
        replaced_above(p, old, new) == replaced(p.drop_last(), old, new).push(p.last()),
        plain_path(replaced_above(p, old, new)),
{
    lemma_plain_dir(p);
    lemma_replaced(p.drop_last(), old, new);
    assert(is_name(p[p.len() - 1]) && plain(text_of(p[p.len() - 1])));
    lemma_join_name(replaced(p.drop_last(), old, new), p.last());
    lemma_parse_name(p.last());
    let r = replaced(p.drop_last(), old, new).push(p.last());
    assert forall|i: int| 0 <= i < r.len() implies is_name(#[trigger] r[i]) && plain(
        text_of(r[i]),
    ) by {
        if i < p.len() - 1 {
            assert(r[i] == replaced(p.drop_last(), old, new)[i]);
        }
    }
}

/// What was below `a` is below `b` after `a` was moved there.
pub proof fn lemma_relocated(p: Path, a: Path, b: Path)
    requires
        plain_path(p),
        plain_path(b),
        b.len() > 0,
        leads_to(a, p),
    ensures
        relocated(p, a, b) == b + p.skip(a.len() as int),
        plain_path(relocated(p, a, b)),
{
    let rest = p.skip(a.len() as int);
    if rest.len() > 0 {
        let c = rest[0];
        assert(c == p[a.len() as int]);
        assert(is_name(c));
        assert(c != root_comp()) by {
            if c == root_comp() {
                assert(c[0] == SLASH);
                assert(c.contains(c[0]));
            }
        }
    }
    let r = b + rest;
    assert(path_join(b, rest) =~= r);
    assert forall|i: int| 0 <= i < r.len() implies is_name(#[trigger] r[i]) && plain(
        text_of(r[i]),
    ) by {
        if i >= b.len() {
            assert(r[i] == p[i - b.len() + a.len()]);
        }
    }
}

} // verus!
