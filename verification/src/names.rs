//! Sets of names, and maps from names and from sets of names.
use vstd::prelude::*;

use crate::order::{
    lemma_bytes_total, lemma_lex_irreflexive, lemma_lex_total, lemma_lex_transitive,
    lemma_names_total, lex_at, lex_before, name_before, Key, Order,
};
use crate::path::{comp_lt, FsPath};
use crate::sorted_map::SortedMap;
use crate::sorted_set::{in_order, increasing, lemma_has_order, SortedSet};

verus! {

/// A set of names: tags, or names of files.
pub type NameSet = SortedSet<String>;

/// A set of paths.
pub type PathSet = SortedSet<FsPath>;

/// A map from names.
pub type NameMap<V> = SortedMap<String, V>;

/// A map from sets of tags.
pub type TagMap<V> = SortedMap<NameSet, V>;

/// A name.
pub type Name = Seq<char>;

/// The components of a path.
pub type Path = Seq<Seq<u8>>;

/// The names of a set, in order.
pub open spec fn sorted_names(s: Set<Name>) -> Seq<Name> {
    in_order::<String>(s)
}

/// A finite set of names has each of its names once in its ordered form.
pub proof fn lemma_sorted_names(s: Set<Name>)
    requires
        s.finite(),
    ensures
        increasing::<String>(sorted_names(s)),
        sorted_names(s).to_set() == s,
        sorted_names(s).no_duplicates(),
        sorted_names(s).len() == s.len(),
{
    assert forall|a: Name, b: Name| s.contains(a) && s.contains(b) implies a == b
        || #[trigger] <String as Key>::before(a, b) || <String as Key>::before(b, a) by {
        lemma_names_total(a, b);
    }
    lemma_has_order::<String>(s);
}

/// A finite set of paths has each of its paths once in its ordered form.
pub proof fn lemma_sorted_paths(s: Set<Path>)
    requires
        s.finite(),
    ensures
        increasing::<FsPath>(in_order::<FsPath>(s)),
        in_order::<FsPath>(s).to_set() == s,
        in_order::<FsPath>(s).no_duplicates(),
        in_order::<FsPath>(s).len() == s.len(),
{
    assert forall|a: Path, b: Path| s.contains(a) && s.contains(b) implies a == b
        || #[trigger] <FsPath as Key>::before(a, b) || <FsPath as Key>::before(b, a) by {
        assert forall|x: Seq<u8>, y: Seq<u8>| x == y || #[trigger] comp_lt()(x, y) || comp_lt()(
            y,
            x,
        ) by {
            lemma_bytes_total(x, y);
        }
        lemma_lex_total(a, b, comp_lt());
    }
    lemma_has_order::<FsPath>(s);
}

pub open spec fn name_lt() -> spec_fn(Name, Name) -> bool {
    |a: Name, b: Name| name_before(a, b)
}

proof fn lemma_name_lt()
    ensures
        forall|x: Name| !#[trigger] name_lt()(x, x),
        forall|x: Name, y: Name, z: Name| #[trigger]
            name_lt()(x, y) && #[trigger] name_lt()(y, z) ==> name_lt()(x, z),
{
    assert forall|x: Name| !#[trigger] name_lt()(x, x) by {
        <String as Key>::before_irreflexive(x);
    }
    assert forall|x: Name, y: Name, z: Name| #[trigger]
        name_lt()(x, y) && #[trigger] name_lt()(y, z) implies name_lt()(x, z) by {
        <String as Key>::before_transitive(x, y, z);
    }
}

impl Key for SortedSet<String> {
    /// Sets of names stand in the order of their sorted names.
    open spec fn before(a: Set<Name>, b: Set<Name>) -> bool {
        lex_before(sorted_names(a), sorted_names(b), name_lt())
    }

    proof fn before_irreflexive(a: Set<Name>) {
        lemma_name_lt();
        lemma_lex_irreflexive(sorted_names(a), name_lt());
    }

    proof fn before_transitive(a: Set<Name>, b: Set<Name>, c: Set<Name>) {
        lemma_name_lt();
        lemma_lex_transitive(sorted_names(a), sorted_names(b), sorted_names(c), name_lt());
    }

    fn order(&self, other: &Self) -> (r: Order) {
        let m = self.len();
        let n = other.len();
        let mut i: usize = 0;
        while i < m && i < n
            invariant
                m == self.seq().len(),
                n == other.seq().len(),
                self.seq() == sorted_names(self@),
                other.seq() == sorted_names(other@),
                i <= m,
                i <= n,
                forall|j: int| 0 <= j < i ==> #[trigger] self.seq()[j] == other.seq()[j],
            decreases m - i,
        {
            match self.at(i).order(other.at(i)) {
                Order::Less => {
                    assert(lex_at(self.seq(), other.seq(), name_lt(), i as int));
                    return Order::Less;
                },
                Order::Greater => {
                    assert(lex_at(other.seq(), self.seq(), name_lt(), i as int));
                    return Order::Greater;
                },
                Order::Equal => {},
            }
            i += 1;
        }
        if i < n {
            assert(lex_at(self.seq(), other.seq(), name_lt(), i as int));
            Order::Less
        } else if i < m {
            assert(lex_at(other.seq(), self.seq(), name_lt(), i as int));
            Order::Greater
        } else {
            assert(self.seq() =~= other.seq());
            Order::Equal
        }
    }

    fn dup(&self) -> (r: Self) {
        SortedSet::dup(self)
    }
}

} // verus!
