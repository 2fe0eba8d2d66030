//! A set of keys, kept as an increasing vector.
use vstd::prelude::*;

use crate::order::{Key, Order};

verus! {

/// Every element of `s` comes before those that follow it.
pub open spec fn increasing<K: Key>(s: Seq<K::V>) -> bool {
    forall|i: int, j: int| 0 <= i < j < s.len() ==> #[trigger] K::before(s[i], s[j])
}

/// The elements of a finite set, in order.
pub open spec fn in_order<K: Key>(s: Set<K::V>) -> Seq<K::V> {
    choose|q: Seq<K::V>| #[trigger] increasing::<K>(q) && q.to_set() == s
}

pub proof fn lemma_increasing_distinct<K: Key>(s: Seq<K::V>)
    requires
        increasing::<K>(s),
    ensures
        s.no_duplicates(),
{
    assert forall|i: int, j: int| 0 <= i < j < s.len() implies s[i] != s[j] by {
        K::before_irreflexive(s[i]);
        assert(K::before(s[i], s[j]));
    }
}

/// There is one increasing sequence of a given set of elements.
pub proof fn lemma_increasing_unique<K: Key>(a: Seq<K::V>, b: Seq<K::V>)
    requires
        increasing::<K>(a),
        increasing::<K>(b),
        a.to_set() == b.to_set(),
    ensures
        a == b,
    decreases a.len(),
{
    if a.len() == 0 {
        if b.len() > 0 {
            assert(b.to_set().contains(b[0]));
            assert(a.to_set().contains(b[0]));
        }
        assert(a =~= b);
    } else {
        assert(a.to_set().contains(a.last()));
        assert(b.to_set().contains(a.last()));
        let j = choose|j: int| 0 <= j < b.len() && b[j] == a.last();
        assert(b.to_set().contains(b.last()));
        assert(a.to_set().contains(b.last()));
        let i = choose|i: int| 0 <= i < a.len() && a[i] == b.last();
        if j < b.len() - 1 {
            assert(K::before(b[j], b[b.len() - 1]));
            if i < a.len() - 1 {
                assert(K::before(a[i], a[a.len() - 1]));
                K::before_transitive(a.last(), b.last(), a.last());
            }
            K::before_irreflexive(a.last());
        }
        assert(a.last() == b.last());
        lemma_increasing_distinct::<K>(a);
        lemma_increasing_distinct::<K>(b);
        let x = a.drop_last();
        let y = b.drop_last();
        assert forall|i: int, j: int| 0 <= i < j < x.len() implies #[trigger] K::before(x[i], x[j]) by {
            assert(K::before(a[i], a[j]));
        }
        assert forall|i: int, j: int| 0 <= i < j < y.len() implies #[trigger] K::before(y[i], y[j]) by {
            assert(K::before(b[i], b[j]));
        }
        assert forall|v: K::V| #[trigger] x.to_set().contains(v) implies y.to_set().contains(v) by {
            let p = choose|p: int| 0 <= p < x.len() && x[p] == v;
            assert(a[p] == v);
            assert(a.to_set().contains(v));
            assert(b.to_set().contains(v));
            let q = choose|q: int| 0 <= q < b.len() && b[q] == v;
            assert(y[q] == v);
        }
        assert forall|v: K::V| #[trigger] y.to_set().contains(v) implies x.to_set().contains(v) by {
            let p = choose|p: int| 0 <= p < y.len() && y[p] == v;
            assert(b[p] == v);
            assert(b.to_set().contains(v));
            assert(a.to_set().contains(v));
            let q = choose|q: int| 0 <= q < a.len() && a[q] == v;
            assert(x[q] == v);
        }
        assert(x.to_set() =~= y.to_set());
        lemma_increasing_unique::<K>(x, y);
        assert(a =~= x.push(a.last()));
        assert(b =~= y.push(b.last()));
    }
}

/// An increasing sequence is the ordered form of the set of its elements.
pub proof fn lemma_in_order<K: Key>(q: Seq<K::V>)
    requires
        increasing::<K>(q),
    ensures
        in_order::<K>(q.to_set()) == q,
{
    let r = in_order::<K>(q.to_set());
    assert(increasing::<K>(r) && r.to_set() == q.to_set());
    lemma_increasing_unique::<K>(r, q);
}

/// A finite set has an ordered form where of two elements one comes first.
pub proof fn lemma_has_order<K: Key>(s: Set<K::V>)
    requires
        s.finite(),
        forall|a: K::V, b: K::V|
            s.contains(a) && s.contains(b) ==> a == b || #[trigger] K::before(a, b) || K::before(
                b,
                a,
            ),
    ensures
        increasing::<K>(in_order::<K>(s)),
        in_order::<K>(s).to_set() == s,
        in_order::<K>(s).no_duplicates(),
        in_order::<K>(s).len() == s.len(),
{
    let q = lemma_make_order::<K>(s);
    assert(increasing::<K>(q) && q.to_set() == s);
    let r = in_order::<K>(s);
    lemma_increasing_distinct::<K>(r);
    r.unique_seq_to_set();
}

proof fn lemma_make_order<K: Key>(s: Set<K::V>) -> (q: Seq<K::V>)
    requires
        s.finite(),
        forall|a: K::V, b: K::V|
            s.contains(a) && s.contains(b) ==> a == b || #[trigger] K::before(a, b) || K::before(
                b,
                a,
            ),
    ensures
        increasing::<K>(q),
        q.to_set() == s,
    decreases s.len(),
{
    if s.len() == 0 {
        let q = Seq::<K::V>::empty();
        assert(q.to_set() =~= s);
        q
    } else {
        let x = s.choose();
        let r = lemma_make_order::<K>(s.remove(x));
        let k = lemma_place::<K>(r, x, r.len() as int);
        let q = r.insert(k, x);
        assert forall|i: int, j: int| 0 <= i < j < q.len() implies #[trigger] K::before(
            q[i],
            q[j],
        ) by {
            let m = if i < k { i } else { i - 1 };
            let n = if j < k { j } else { j - 1 };
            if i != k && j != k {
                assert(K::before(r[m], r[n]));
            } else if i == k {
                assert(r.to_set().contains(r[n]));
                assert(K::before(x, r[n]) || K::before(r[n], x));
            }
        }
        assert forall|v: K::V| #[trigger] q.to_set().contains(v) <==> s.contains(v) by {
            if q.to_set().contains(v) {
                let i = choose|i: int| 0 <= i < q.len() && q[i] == v;
                if i < k {
                    assert(r[i] == v);
                    assert(r.to_set().contains(v));
                } else if i > k {
                    assert(r[i - 1] == v);
                    assert(r.to_set().contains(v));
                }
            }
            if s.contains(v) {
                if v == x {
                    assert(q[k] == v);
                } else {
                    assert(r.to_set().contains(v));
                    let i = choose|i: int| 0 <= i < r.len() && r[i] == v;
                    if i < k {
                        assert(q[i] == v);
                    } else {
                        assert(q[i + 1] == v);
                    }
                }
            }
        }
        assert(q.to_set() =~= s);
        q
    }
}

/// How many elements of an increasing sequence come before `x`, among the first
/// `n`.
proof fn lemma_place<K: Key>(r: Seq<K::V>, x: K::V, n: int) -> (k: int)
    requires
        increasing::<K>(r),
        0 <= n <= r.len(),
    ensures
        0 <= k <= n,
        forall|i: int| 0 <= i < k ==> #[trigger] K::before(r[i], x),
        forall|i: int| k <= i < n ==> !#[trigger] K::before(r[i], x),
    decreases n,
{
    if n == 0 {
        0
    } else if K::before(r[n - 1], x) {
        assert forall|i: int| 0 <= i < n implies #[trigger] K::before(r[i], x) by {
            if i < n - 1 {
                assert(K::before(r[i], r[n - 1]));
                K::before_transitive(r[i], r[n - 1], x);
            }
        }
        n
    } else {
        lemma_place::<K>(r, x, n - 1)
    }
}

/// A finite set of keys.
#[derive(PartialEq, Eq, Debug)]
pub struct SortedSet<K: Key> {
    items: Vec<K>,
}

impl<K: Key> View for SortedSet<K> {
    type V = Set<K::V>;

    closed spec fn view(&self) -> Set<K::V> {
        self.seq().to_set()
    }
}

impl<K: Key> SortedSet<K> {
    /// The elements in the order in which they are kept.
    pub closed spec fn seq(&self) -> Seq<K::V> {
        Seq::new(self.items@.len(), |i: int| self.items@[i]@)
    }

    #[verifier::type_invariant]
    spec fn inv(self) -> bool {
        increasing::<K>(self.seq())
    }

    /// The empty set.
    pub fn new() -> (r: Self)
        ensures
            r@ == Set::<K::V>::empty(),
            r.seq() == Seq::<K::V>::empty(),
    {
        let r = SortedSet { items: Vec::new() };
        assert(r.seq() =~= Seq::<K::V>::empty());
        assert(r@ =~= Set::<K::V>::empty());
        r
    }

    /// The number of elements. The elements are kept in order.
    pub fn len(&self) -> (n: usize)
        ensures
            n == self@.len(),
            self@.finite(),
            n == self.seq().len(),
            self.seq() == in_order::<K>(self@),
            self.seq().to_set() == self@,
            increasing::<K>(self.seq()),
            self.seq().no_duplicates(),
    {
        proof {
            use_type_invariant(self);
            lemma_in_order::<K>(self.seq());
            lemma_increasing_distinct::<K>(self.seq());
            self.seq().unique_seq_to_set();
        }
        self.items.len()
    }

    pub fn is_empty(&self) -> (r: bool)
        ensures
            r == (self@ == Set::<K::V>::empty()),
    {
        let n = self.len();
        proof {
            if n > 0 {
                assert(self@.contains(self.seq()[0]));
            } else {
                assert(self@ =~= Set::<K::V>::empty());
            }
        }
        n == 0
    }

    /// The element at place `i`.
    pub fn at(&self, i: usize) -> (r: &K)
        requires
            i < self.seq().len(),
        ensures
            r@ == self.seq()[i as int],
            self@.contains(r@),
    {
        let r = &self.items[i];
        assert(self.seq()[i as int] == r@);
        r
    }

    /// The place of `key`, or the place where it would stand.
    fn find(&self, key: &K) -> (r: (bool, usize))
        ensures
            r.0 == self@.contains(key@),
            r.1 <= self.seq().len(),
            r.0 ==> r.1 < self.seq().len() && self.seq()[r.1 as int] == key@,
            forall|i: int| 0 <= i < r.1 ==> K::before(#[trigger] self.seq()[i], key@),
            !r.0 ==> forall|i: int| r.1 <= i < self.seq().len() ==> K::before(
                key@,
                #[trigger] self.seq()[i],
            ),
    {
        proof {
            use_type_invariant(self);
        }
        let mut lo: usize = 0;
        let mut hi: usize = self.items.len();
        while lo < hi
            invariant
                increasing::<K>(self.seq()),
                lo <= hi <= self.items@.len(),
                forall|i: int| 0 <= i < lo ==> K::before(#[trigger] self.seq()[i], key@),
                forall|i: int| hi <= i < self.seq().len() ==> K::before(
                    key@,
                    #[trigger] self.seq()[i],
                ),
            decreases hi - lo,
        {
            let mid = lo + (hi - lo) / 2;
            let o = key.order(&self.items[mid]);
            assert(self.items@[mid as int]@ == self.seq()[mid as int]);
            match o {
                Order::Equal => {
                    assert(self@.contains(self.seq()[mid as int]));
                    assert forall|i: int| 0 <= i < mid implies K::before(
                        #[trigger] self.seq()[i],
                        key@,
                    ) by {
                        assert(K::before(self.seq()[i], self.seq()[mid as int]));
                    }
                    return (true, mid);
                },
                Order::Less => {
                    assert forall|i: int| mid <= i < self.seq().len() implies K::before(
                        key@,
                        #[trigger] self.seq()[i],
                    ) by {
                        if mid < i {
                            assert(K::before(self.seq()[mid as int], self.seq()[i]));
                            K::before_transitive(key@, self.seq()[mid as int], self.seq()[i]);
                        }
                    }
                    hi = mid;
                },
                Order::Greater => {
                    assert forall|i: int| 0 <= i < mid + 1 implies K::before(
                        #[trigger] self.seq()[i],
                        key@,
                    ) by {
                        if i < mid {
                            assert(K::before(self.seq()[i], self.seq()[mid as int]));
                            K::before_transitive(self.seq()[i], self.seq()[mid as int], key@);
                        }
                    }
                    lo = mid + 1;
                },
            }
        }
        proof {
            if self@.contains(key@) {
                let i = choose|i: int| 0 <= i < self.seq().len() && self.seq()[i] == key@;
                K::before_irreflexive(key@);
                assert(false);
            }
        }
        (false, lo)
    }

    pub fn contains(&self, key: &K) -> (r: bool)
        ensures
            r == self@.contains(key@),
    {
        self.find(key).0
    }

    /// Adds `key`.
    pub fn insert(&mut self, key: K)
        ensures
            final(self)@ == old(self)@.insert(key@),
    {
        let (found, place) = self.find(&key);
        if !found {
            proof {
                use_type_invariant(&*self);
            }
            let ghost s = self.seq();
            let mut items: Vec<K> = Vec::new();
            std::mem::swap(&mut items, &mut self.items);
            items.insert(place, key);
            let ghost t = Seq::new(items@.len(), |i: int| items@[i]@);
            assert(t =~= s.insert(place as int, key@));
            assert forall|i: int, j: int| 0 <= i < j < t.len() implies #[trigger] K::before(
                t[i],
                t[j],
            ) by {
                let p = if i <= place { i } else { i - 1 };
                let q = if j <= place { j } else { j - 1 };
                if i == place {
                    assert(t[j] == s[q]);
                } else if j == place {
                    assert(t[i] == s[i]);
                } else {
                    assert(K::before(s[p], s[q]));
                }
            }
            self.items = items;
            assert(self.seq() =~= t);
            proof {
                assert forall|v: K::V| #[trigger] self@.contains(v) == old(self)@.insert(key@).contains(v) by {
                    if old(self)@.contains(v) {
                        let i = choose|i: int| 0 <= i < s.len() && s[i] == v;
                        let j = if i < place { i } else { i + 1 };
                        assert(t[j] == v);
                    }
                    if v == key@ {
                        assert(t[place as int] == v);
                    }
                    if self@.contains(v) {
                        let i = choose|i: int| 0 <= i < t.len() && t[i] == v;
                        if i < place {
                            assert(s[i] == v);
                        } else if i > place {
                            assert(s[i - 1] == v);
                        }
                    }
                }
            }
        }
        assert(self@ =~= old(self)@.insert(key@));
    }

    /// Takes `key` out.
    pub fn remove(&mut self, key: &K)
        ensures
            final(self)@ == old(self)@.remove(key@),
    {
        let (found, place) = self.find(key);
        if found {
            proof {
                use_type_invariant(&*self);
            }
            let ghost s = self.seq();
            let mut items: Vec<K> = Vec::new();
            std::mem::swap(&mut items, &mut self.items);
            items.remove(place);
            let ghost t = Seq::new(items@.len(), |i: int| items@[i]@);
            assert(t =~= s.remove(place as int));
            assert forall|i: int, j: int| 0 <= i < j < t.len() implies #[trigger] K::before(
                t[i],
                t[j],
            ) by {
                let p = if i < place { i } else { i + 1 };
                let q = if j < place { j } else { j + 1 };
                assert(K::before(s[p], s[q]));
            }
            self.items = items;
            assert(self.seq() =~= t);
            proof {
                lemma_increasing_distinct::<K>(s);
                assert forall|v: K::V| #[trigger] self@.contains(v) == old(self)@.remove(key@).contains(v) by {
                    if old(self)@.contains(v) && v != key@ {
                        let i = choose|i: int| 0 <= i < s.len() && s[i] == v;
                        let j = if i < place { i } else { i - 1 };
                        assert(t[j] == v);
                    }
                    if self@.contains(v) {
                        let i = choose|i: int| 0 <= i < t.len() && t[i] == v;
                        let j = if i < place { i } else { i + 1 };
                        assert(s[j] == v);
                    }
                }
            }
        }
        assert(self@ =~= old(self)@.remove(key@));
    }

    /// Whether every element of `self` is in `other`.
    pub fn is_subset(&self, other: &Self) -> (r: bool)
        ensures
            r == self@.subset_of(other@),
    {
        let n = self.len();
        let mut i: usize = 0;
        while i < n
            invariant
                n == self.seq().len(),
                i <= n,
                self.seq().to_set() == self@,
                forall|j: int| 0 <= j < i ==> other@.contains(#[trigger] self.seq()[j]),
            decreases n - i,
        {
            if !other.contains(self.at(i)) {
                assert(self@.contains(self.seq()[i as int]));
                return false;
            }
            i += 1;
        }
        assert forall|v: K::V| #[trigger] self@.contains(v) implies other@.contains(v) by {
            assert(self.seq().to_set().contains(v));
        }
        true
    }

    /// Adds every element of `other`.
    pub fn extend(&mut self, other: &Self)
        ensures
            final(self)@ == old(self)@.union(other@),
    {
        let n = other.len();
        let mut i: usize = 0;
        assert(self@ =~= old(self)@.union(other.seq().take(0).to_set()));
        while i < n
            invariant
                n == other.seq().len(),
                i <= n,
                self@ == old(self)@.union(other.seq().take(i as int).to_set()),
            decreases n - i,
        {
            self.insert(other.at(i).dup());
            proof {
                lemma_take_set(other.seq(), i as int);
            }
            i += 1;
            assert(self@ =~= old(self)@.union(other.seq().take(i as int).to_set()));
        }
        assert(other.seq().take(n as int) =~= other.seq());
    }

    /// Takes every element of `other` out.
    pub fn remove_all(&mut self, other: &Self)
        ensures
            final(self)@ == old(self)@.difference(other@),
    {
        let n = other.len();
        let mut i: usize = 0;
        assert(self@ =~= old(self)@.difference(other.seq().take(0).to_set()));
        while i < n
            invariant
                n == other.seq().len(),
                i <= n,
                self@ == old(self)@.difference(other.seq().take(i as int).to_set()),
            decreases n - i,
        {
            self.remove(other.at(i));
            proof {
                lemma_take_set(other.seq(), i as int);
            }
            i += 1;
            assert(self@ =~= old(self)@.difference(other.seq().take(i as int).to_set()));
        }
        assert(other.seq().take(n as int) =~= other.seq());
    }

    /// The elements of `self` that `other` lacks.
    pub fn difference(&self, other: &Self) -> (r: Self)
        ensures
            r@ == self@.difference(other@),
    {
        let mut r = self.dup();
        r.remove_all(other);
        r
    }

    /// The elements that `self` and `other` share.
    pub fn intersection(&self, other: &Self) -> (r: Self)
        ensures
            r@ == self@.intersect(other@),
    {
        let mut r = self.dup();
        r.remove_all(&self.difference(other));
        assert(r@ =~= self@.intersect(other@));
        r
    }

    /// A second set with the same elements.
    pub fn dup(&self) -> (r: Self)
        ensures
            r@ == self@,
    {
        let mut r = SortedSet::<K>::new();
        r.extend(self);
        assert(r@ =~= self@);
        r
    }

    /// Whether the two sets have the same elements.
    pub fn same(&self, other: &Self) -> (r: bool)
        ensures
            r == (self@ == other@),
    {
        let r = self.is_subset(other) && other.is_subset(self);
        assert(r ==> self@ =~= other@);
        r
    }

    /// The set of the elements of a vector.
    pub fn from_vec(v: Vec<K>) -> (r: Self)
        ensures
            forall|x: K::V| #[trigger] r@.contains(x) <==> exists|i: int|
                0 <= i < v@.len() && #[trigger] v@[i]@ == x,
    {
        let mut r = SortedSet::<K>::new();
        let mut i: usize = 0;
        while i < v.len()
            invariant
                i <= v@.len(),
                forall|x: K::V| #[trigger] r@.contains(x) <==> exists|j: int|
                    0 <= j < i && #[trigger] v@[j]@ == x,
            decreases v@.len() - i,
        {
            let ghost before = r@;
            r.insert(v[i].dup());
            assert forall|x: K::V| #[trigger] r@.contains(x) <==> exists|j: int|
                0 <= j < i + 1 && #[trigger] v@[j]@ == x by {
                if before.contains(x) {
                    let j = choose|j: int| 0 <= j < i && #[trigger] v@[j]@ == x;
                    assert(0 <= j < i + 1 && v@[j]@ == x);
                }
                if x == v@[i as int]@ {
                    assert(0 <= i < i + 1 && v@[i as int]@ == x);
                }
            }
            i += 1;
        }
        r
    }
}

/// A prefix that is one longer holds one element more.
pub proof fn lemma_take_set<T>(s: Seq<T>, i: int)
    requires
        0 <= i < s.len(),
    ensures
        s.take(i + 1).to_set() == s.take(i).to_set().insert(s[i]),
{
    let t = s.take(i + 1);
    let u = s.take(i);
    assert forall|v: T| #[trigger] t.to_set().contains(v) == u.to_set().insert(s[i]).contains(v) by {
        if u.to_set().contains(v) {
            let j = choose|j: int| 0 <= j < u.len() && u[j] == v;
            assert(t[j] == v);
        }
        if v == s[i] {
            assert(t[i] == v);
        }
        if t.to_set().contains(v) {
            let j = choose|j: int| 0 <= j < t.len() && t[j] == v;
            if j < i {
                assert(u[j] == v);
            }
        }
    }
    assert(t.to_set() =~= u.to_set().insert(s[i]));
}

} // verus!
