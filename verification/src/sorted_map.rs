//! A map from keys to values, kept as a vector with increasing keys.
use vstd::prelude::*;

use crate::order::{Key, Order};
use crate::sorted_set::{
    in_order, increasing, lemma_in_order, lemma_increasing_distinct, lemma_take_set, SortedSet,
};

verus! {

/// A finite map.
#[derive(PartialEq, Eq, Debug)]
pub struct SortedMap<K: Key, V: View> {
    entries: Vec<(K, V)>,
}

impl<K: Key, V: View> View for SortedMap<K, V> {
    type V = Map<K::V, V::V>;

    closed spec fn view(&self) -> Map<K::V, V::V> {
        table(self.keys(), self.vals())
    }
}

/// The map that takes each of `keys` to the value in the same place.
pub open spec fn table<A, B>(keys: Seq<A>, vals: Seq<B>) -> Map<A, B> {
    Map::new(
        |k: A| keys.contains(k),
        |k: A| vals[choose|i: int| 0 <= i < keys.len() && #[trigger] keys[i] == k],
    )
}

proof fn lemma_table_at<A, B>(keys: Seq<A>, vals: Seq<B>, i: int)
    requires
        keys.no_duplicates(),
        0 <= i < keys.len(),
    ensures
        table(keys, vals).contains_key(keys[i]),
        table(keys, vals)[keys[i]] == vals[i],
{
    let j = choose|j: int| 0 <= j < keys.len() && #[trigger] keys[j] == keys[i];
    assert(0 <= i < keys.len() && keys[i] == keys[i]);
    assert(i == j);
}

/// A table is known from its entries.
proof fn lemma_table_is<A, B>(keys: Seq<A>, vals: Seq<B>, m: Map<A, B>)
    requires
        keys.no_duplicates(),
        forall|i: int| 0 <= i < keys.len() ==> m.contains_key(#[trigger] keys[i]) && m[keys[i]] == vals[i],
        forall|k: A| #[trigger] m.contains_key(k) ==> keys.contains(k),
    ensures
        table(keys, vals) == m,
{
    assert forall|k: A| #[trigger] table(keys, vals).contains_key(k) implies m.contains_key(k)
        && table(keys, vals)[k] == m[k] by {
        let i = choose|i: int| 0 <= i < keys.len() && keys[i] == k;
        lemma_table_at(keys, vals, i);
    }
    assert(table(keys, vals) =~= m);
}

impl<K: Key, V: View> SortedMap<K, V> {
    /// The keys in the order in which they are kept.
    pub closed spec fn keys(&self) -> Seq<K::V> {
        Seq::new(self.entries@.len(), |i: int| self.entries@[i].0@)
    }

    /// The values in the order of their keys.
    pub closed spec fn vals(&self) -> Seq<V::V> {
        Seq::new(self.entries@.len(), |i: int| self.entries@[i].1@)
    }

    #[verifier::type_invariant]
    spec fn inv(self) -> bool {
        increasing::<K>(self.keys())
    }

    /// The empty map.
    pub fn new() -> (r: Self)
        ensures
            r@ == Map::<K::V, V::V>::empty(),
    {
        let r = SortedMap { entries: Vec::new() };
        assert(r.keys() =~= Seq::<K::V>::empty());
        assert(r@ =~= Map::<K::V, V::V>::empty());
        r
    }

    /// The number of entries. They are kept in the order of their keys.
    pub fn len(&self) -> (n: usize)
        ensures
            n == self@.len(),
            self@.dom().finite(),
            n == self.keys().len(),
            n == self.vals().len(),
            self.keys() == in_order::<K>(self@.dom()),
            self.keys().to_set() == self@.dom(),
            self.keys().no_duplicates(),
            increasing::<K>(self.keys()),
            forall|i: int|
                0 <= i < n ==> self@.contains_key(#[trigger] self.keys()[i])
                    && self@[self.keys()[i]] == self.vals()[i],
    {
        proof {
            use_type_invariant(self);
            lemma_in_order::<K>(self.keys());
            lemma_increasing_distinct::<K>(self.keys());
            self.keys().unique_seq_to_set();
            assert(self.keys().to_set() =~= self@.dom());
            assert forall|i: int| 0 <= i < self.keys().len() implies self@.contains_key(
                #[trigger] self.keys()[i],
            ) && self@[self.keys()[i]] == self.vals()[i] by {
                lemma_table_at(self.keys(), self.vals(), i);
            }
        }
        self.entries.len()
    }

    pub fn is_empty(&self) -> (r: bool)
        ensures
            r == (self@ == Map::<K::V, V::V>::empty()),
    {
        let n = self.len();
        proof {
            if n > 0 {
                assert(self@.contains_key(self.keys()[0]));
            } else {
                assert(self@.dom() =~= Set::<K::V>::empty());
                assert(self@ =~= Map::<K::V, V::V>::empty());
            }
        }
        n == 0
    }

    /// The key at place `i`.
    pub fn key_at(&self, i: usize) -> (r: &K)
        requires
            i < self.keys().len(),
        ensures
            r@ == self.keys()[i as int],
    {
        &self.entries[i].0
    }

    /// The value at place `i`.
    pub fn value_at(&self, i: usize) -> (r: &V)
        requires
            i < self.keys().len(),
        ensures
            r@ == self.vals()[i as int],
    {
        &self.entries[i].1
    }

    /// The place of `key`, or the place where it would stand.
    fn find(&self, key: &K) -> (r: (bool, usize))
        ensures
            r.0 == self@.contains_key(key@),
            r.1 <= self.keys().len(),
            r.0 ==> r.1 < self.keys().len() && self.keys()[r.1 as int] == key@ && self@[key@]
                == self.vals()[r.1 as int],
            forall|i: int| 0 <= i < r.1 ==> K::before(#[trigger] self.keys()[i], key@),
            !r.0 ==> forall|i: int| r.1 <= i < self.keys().len() ==> K::before(
                key@,
                #[trigger] self.keys()[i],
            ),
    {
        proof {
            use_type_invariant(self);
            lemma_increasing_distinct::<K>(self.keys());
        }
        let mut lo: usize = 0;
        let mut hi: usize = self.entries.len();
        while lo < hi
            invariant
                increasing::<K>(self.keys()),
                self.keys().no_duplicates(),
                lo <= hi <= self.entries@.len(),
                forall|i: int| 0 <= i < lo ==> K::before(#[trigger] self.keys()[i], key@),
                forall|i: int| hi <= i < self.keys().len() ==> K::before(
                    key@,
                    #[trigger] self.keys()[i],
                ),
            decreases hi - lo,
        {
            let mid = lo + (hi - lo) / 2;
            let o = key.order(&self.entries[mid].0);
            assert(self.entries@[mid as int].0@ == self.keys()[mid as int]);
            match o {
                Order::Equal => {
                    proof {
                        lemma_table_at(self.keys(), self.vals(), mid as int);
                    }
                    assert forall|i: int| 0 <= i < mid implies K::before(
                        #[trigger] self.keys()[i],
                        key@,
                    ) by {
                        assert(K::before(self.keys()[i], self.keys()[mid as int]));
                    }
                    return (true, mid);
                },
                Order::Less => {
                    assert forall|i: int| mid <= i < self.keys().len() implies K::before(
                        key@,
                        #[trigger] self.keys()[i],
                    ) by {
                        if mid < i {
                            assert(K::before(self.keys()[mid as int], self.keys()[i]));
                            K::before_transitive(key@, self.keys()[mid as int], self.keys()[i]);
                        }
                    }
                    hi = mid;
                },
                Order::Greater => {
                    assert forall|i: int| 0 <= i < mid + 1 implies K::before(
                        #[trigger] self.keys()[i],
                        key@,
                    ) by {
                        if i < mid {
                            assert(K::before(self.keys()[i], self.keys()[mid as int]));
                            K::before_transitive(self.keys()[i], self.keys()[mid as int], key@);
                        }
                    }
                    lo = mid + 1;
                },
            }
        }
        proof {
            if self@.contains_key(key@) {
                let i = choose|i: int| 0 <= i < self.keys().len() && self.keys()[i] == key@;
                K::before_irreflexive(key@);
                assert(false);
            }
        }
        (false, lo)
    }

    pub fn contains_key(&self, key: &K) -> (r: bool)
        ensures
            r == self@.contains_key(key@),
    {
        self.find(key).0
    }

    /// The value of `key`.
    pub fn get(&self, key: &K) -> (r: Option<&V>)
        ensures
            match r {
                Some(v) => self@.contains_key(key@) && v@ == self@[key@],
                None => !self@.contains_key(key@),
            },
    {
        let (found, place) = self.find(key);
        if found {
            Some(self.value_at(place))
        } else {
            None
        }
    }

    /// Gives `key` the value `val`.
    pub fn insert(&mut self, key: K, val: V)
        ensures
            final(self)@ == old(self)@.insert(key@, val@),
    {
        let (found, place) = self.find(&key);
        proof {
            use_type_invariant(&*self);
            lemma_increasing_distinct::<K>(self.keys());
        }
        let ghost s = self.keys();
        let ghost w = self.vals();
        let ghost m = self@.insert(key@, val@);
        let mut entries: Vec<(K, V)> = Vec::new();
        std::mem::swap(&mut entries, &mut self.entries);
        if found {
            entries.remove(place);
        }
        entries.insert(place, (key, val));
        let ghost t = Seq::new(entries@.len(), |i: int| entries@[i].0@);
        let ghost u = Seq::new(entries@.len(), |i: int| entries@[i].1@);
        proof {
            if found {
                assert(t =~= s);
                assert(u =~= w.update(place as int, val@));
            } else {
                assert(t =~= s.insert(place as int, key@));
                assert(u =~= w.insert(place as int, val@));
                assert forall|i: int, j: int| 0 <= i < j < t.len() implies #[trigger] K::before(
                    t[i],
                    t[j],
                ) by {
                    let p = if i <= place { i } else { i - 1 };
                    let q = if j <= place { j } else { j - 1 };
                    if i == place {
                        assert(t[j] == s[q]);
                    } else if j == place {
                        assert(t[i] == s[i]);
                    } else {
                        assert(K::before(s[p], s[q]));
                    }
                }
            }
        }
        self.entries = entries;
        proof {
            assert(self.keys() =~= t);
            assert(self.vals() =~= u);
            lemma_increasing_distinct::<K>(t);
            assert forall|i: int| 0 <= i < t.len() implies m.contains_key(#[trigger] t[i])
                && m[t[i]] == u[i] by {
                let p = if found || i < place { i } else { i - 1 };
                if i != place {
                    assert(t[i] == s[p]);
                    lemma_table_at(s, w, p);
                    assert(t[i] != t[place as int]);
                }
            }
            assert forall|k: K::V| #[trigger] m.contains_key(k) implies t.contains(k) by {
                if k == key@ {
                    assert(t[place as int] == k);
                } else {
                    let i = choose|i: int| 0 <= i < s.len() && s[i] == k;
                    let j = if found || i < place { i } else { i + 1 };
                    assert(t[j] == k);
                }
            }
            lemma_table_is(t, u, m);
        }
    }

    /// Takes the entry of `key` out and hands back its value.
    pub fn remove(&mut self, key: &K) -> (r: Option<V>)
        ensures
            final(self)@ == old(self)@.remove(key@),
            match r {
                Some(v) => old(self)@.contains_key(key@) && v@ == old(self)@[key@],
                None => !old(self)@.contains_key(key@),
            },
    {
        let (found, place) = self.find(key);
        if !found {
            assert(self@ =~= old(self)@.remove(key@));
            return None;
        }
        proof {
            use_type_invariant(&*self);
            lemma_increasing_distinct::<K>(self.keys());
        }
        let ghost s = self.keys();
        let ghost w = self.vals();
        let ghost m = self@.remove(key@);
        let mut entries: Vec<(K, V)> = Vec::new();
        std::mem::swap(&mut entries, &mut self.entries);
        let (_, val) = entries.remove(place);
        let ghost t = Seq::new(entries@.len(), |i: int| entries@[i].0@);
        let ghost u = Seq::new(entries@.len(), |i: int| entries@[i].1@);
        proof {
            assert(t =~= s.remove(place as int));
            assert(u =~= w.remove(place as int));
            assert forall|i: int, j: int| 0 <= i < j < t.len() implies #[trigger] K::before(
                t[i],
                t[j],
            ) by {
                let p = if i < place { i } else { i + 1 };
                let q = if j < place { j } else { j + 1 };
                assert(K::before(s[p], s[q]));
            }
        }
        self.entries = entries;
        proof {
            assert(self.keys() =~= t);
            assert(self.vals() =~= u);
            lemma_increasing_distinct::<K>(t);
            assert forall|i: int| 0 <= i < t.len() implies m.contains_key(#[trigger] t[i])
                && m[t[i]] == u[i] by {
                let p = if i < place { i } else { i + 1 };
                assert(t[i] == s[p]);
                lemma_table_at(s, w, p);
                assert(s[p] != s[place as int]);
            }
            assert forall|k: K::V| #[trigger] m.contains_key(k) implies t.contains(k) by {
                let i = choose|i: int| 0 <= i < s.len() && s[i] == k;
                let j = if i < place { i } else { i - 1 };
                assert(t[j] == k);
            }
            lemma_table_is(t, u, m);
        }
        Some(val)
    }

    /// The set of the keys.
    pub fn key_set(&self) -> (r: SortedSet<K>)
        ensures
            r@ == self@.dom(),
    {
        let n = self.len();
        let mut r = SortedSet::<K>::new();
        let mut i: usize = 0;
        assert(self.keys().take(0).to_set() =~= Set::<K::V>::empty());
        while i < n
            invariant
                n == self.keys().len(),
                i <= n,
                r@ == self.keys().take(i as int).to_set(),
            decreases n - i,
        {
            r.insert(self.key_at(i).dup());
            proof {
                lemma_take_set(self.keys(), i as int);
            }
            i += 1;
        }
        assert(self.keys().take(n as int) =~= self.keys());
        r
    }
}

impl<K: Key, E: Key> SortedMap<K, SortedSet<E>> {
    /// Makes sure that `key` has a set.
    pub fn touch(&mut self, key: &K)
        ensures
            final(self)@ == touched(old(self)@, key@),
    {
        if !self.contains_key(key) {
            self.insert(key.dup(), SortedSet::new());
        }
    }

    /// Adds `item` to the set of `key`, which begins empty.
    pub fn add(&mut self, key: &K, item: E)
        ensures
            final(self)@ == added(old(self)@, key@, item@),
    {
        let mut set = match self.remove(key) {
            Some(set) => set,
            None => SortedSet::new(),
        };
        set.insert(item);
        self.insert(key.dup(), set);
        assert(self@ =~= added(old(self)@, key@, item@));
    }

    /// Takes `item` out of the set of `key`, where there is one.
    pub fn drop_item(&mut self, key: &K, item: &E)
        ensures
            final(self)@ == dropped(old(self)@, key@, item@),
    {
        match self.remove(key) {
            Some(mut set) => {
                set.remove(item);
                self.insert(key.dup(), set);
            },
            None => {},
        }
        assert(self@ =~= dropped(old(self)@, key@, item@));
    }
}

/// `m` with a set for `key`, an empty one if it had none.
pub open spec fn touched<A, B>(m: Map<A, Set<B>>, key: A) -> Map<A, Set<B>> {
    if m.contains_key(key) {
        m
    } else {
        m.insert(key, Set::empty())
    }
}

/// The set of `key`; the empty set where it has none.
pub open spec fn set_of<A, B>(m: Map<A, Set<B>>, key: A) -> Set<B> {
    if m.contains_key(key) {
        m[key]
    } else {
        Set::empty()
    }
}

/// `m` with `item` in the set of `key`.
pub open spec fn added<A, B>(m: Map<A, Set<B>>, key: A, item: B) -> Map<A, Set<B>> {
    m.insert(key, set_of(m, key).insert(item))
}

/// `m` without `item` in the set of `key`.
pub open spec fn dropped<A, B>(m: Map<A, Set<B>>, key: A, item: B) -> Map<A, Set<B>> {
    if m.contains_key(key) {
        m.insert(key, m[key].remove(item))
    } else {
        m
    }
}

} // verus!
