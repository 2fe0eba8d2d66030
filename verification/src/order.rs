//! Total orders on the keys of the sorted collections.
use vstd::prelude::*;
use vstd::utf8::*;

verus! {

/// How one key stands to another.
#[derive(Clone, Copy, PartialEq, Eq, Debug, Structural)]
pub enum Order {
    Less,
    Equal,
    Greater,
}

/// A key of a sorted collection. Keys are told apart by their view, and
/// `before` puts the views in order.
pub trait Key: View + Sized {
    spec fn before(a: Self::V, b: Self::V) -> bool;

    proof fn before_irreflexive(a: Self::V)
        ensures
            !Self::before(a, a),
    ;

    proof fn before_transitive(a: Self::V, b: Self::V, c: Self::V)
        requires
            Self::before(a, b),
            Self::before(b, c),
        ensures
            Self::before(a, c),
    ;

    /// Compares two keys.
    fn order(&self, other: &Self) -> (r: Order)
        ensures
            match r {
                Order::Less => Self::before(self@, other@),
                Order::Equal => self@ == other@,
                Order::Greater => Self::before(other@, self@),
            },
    ;

    /// A second key with the same view.
    fn dup(&self) -> (r: Self)
        ensures
            r@ == self@,
    ;
}

/// The sequence `a` comes before `b`: they agree up to some place, where `a`
/// ends or holds the smaller element.
pub open spec fn lex_before<T>(a: Seq<T>, b: Seq<T>, lt: spec_fn(T, T) -> bool) -> bool {
    exists|k: int| #[trigger] lex_at(a, b, lt, k)
}

/// `lex_before`, with the place named.
pub open spec fn lex_at<T>(a: Seq<T>, b: Seq<T>, lt: spec_fn(T, T) -> bool, k: int) -> bool {
    &&& 0 <= k <= a.len()
    &&& k < b.len()
    &&& forall|i: int| 0 <= i < k ==> #[trigger] a[i] == b[i]
    &&& k == a.len() || lt(a[k], b[k])
}

pub proof fn lemma_lex_irreflexive<T>(a: Seq<T>, lt: spec_fn(T, T) -> bool)
    requires
        forall|x: T| !#[trigger] lt(x, x),
    ensures
        !lex_before(a, a, lt),
{
}

pub proof fn lemma_lex_transitive<T>(a: Seq<T>, b: Seq<T>, c: Seq<T>, lt: spec_fn(T, T) -> bool)
    requires
        forall|x: T, y: T, z: T| #[trigger] lt(x, y) && #[trigger] lt(y, z) ==> lt(x, z),
        lex_before(a, b, lt),
        lex_before(b, c, lt),
    ensures
        lex_before(a, c, lt),
{
    let j = choose|k: int| #[trigger] lex_at(a, b, lt, k);
    let k = choose|k: int| #[trigger] lex_at(b, c, lt, k);
    if j < k {
        assert(b[j] == c[j]);
        assert(lex_at(a, c, lt, j));
    } else {
        if k < j {
            assert(a[k] == b[k]);
        }
        assert(lex_at(a, c, lt, k));
    }
}

/// Of two different sequences one comes first, where that is so of elements.
pub proof fn lemma_lex_total<T>(a: Seq<T>, b: Seq<T>, lt: spec_fn(T, T) -> bool)
    requires
        forall|x: T, y: T| x == y || #[trigger] lt(x, y) || lt(y, x),
    ensures
        a == b || lex_before(a, b, lt) || lex_before(b, a, lt),
{
    lemma_lex_total_from(a, b, lt, 0);
}

proof fn lemma_lex_total_from<T>(a: Seq<T>, b: Seq<T>, lt: spec_fn(T, T) -> bool, k: int)
    requires
        forall|x: T, y: T| x == y || #[trigger] lt(x, y) || lt(y, x),
        0 <= k <= a.len(),
        k <= b.len(),
        forall|i: int| 0 <= i < k ==> #[trigger] a[i] == b[i],
    ensures
        a == b || lex_before(a, b, lt) || lex_before(b, a, lt),
    decreases a.len() - k,
{
    if k == a.len() && k == b.len() {
        assert(a =~= b);
    } else if k == a.len() {
        assert(lex_at(a, b, lt, k));
    } else if k == b.len() {
        assert(lex_at(b, a, lt, k));
    } else if a[k] == b[k] {
        lemma_lex_total_from(a, b, lt, k + 1);
    } else if lt(a[k], b[k]) {
        assert(lex_at(a, b, lt, k));
    } else {
        assert(lt(b[k], a[k]));
        assert(lex_at(b, a, lt, k));
    }
}

pub open spec fn byte_lt() -> spec_fn(u8, u8) -> bool {
    |x: u8, y: u8| x < y
}

/// The order of byte strings.
pub open spec fn bytes_before(a: Seq<u8>, b: Seq<u8>) -> bool {
    lex_before(a, b, byte_lt())
}

pub proof fn lemma_bytes_irreflexive(a: Seq<u8>)
    ensures
        !bytes_before(a, a),
{
    lemma_lex_irreflexive(a, byte_lt());
}

pub proof fn lemma_bytes_transitive(a: Seq<u8>, b: Seq<u8>, c: Seq<u8>)
    requires
        bytes_before(a, b),
        bytes_before(b, c),
    ensures
        bytes_before(a, c),
{
    lemma_lex_transitive(a, b, c, byte_lt());
}

/// Compares two byte strings.
pub fn order_bytes(a: &[u8], b: &[u8]) -> (r: Order)
    ensures
        match r {
            Order::Less => bytes_before(a@, b@),
            Order::Equal => a@ == b@,
            Order::Greater => bytes_before(b@, a@),
        },
{
    let mut i: usize = 0;
    while i < a.len() && i < b.len()
        invariant
            i <= a@.len(),
            i <= b@.len(),
            forall|j: int| 0 <= j < i ==> #[trigger] a@[j] == b@[j],
        decreases a@.len() - i,
    {
        if a[i] < b[i] {
            assert(lex_at(a@, b@, byte_lt(), i as int));
            return Order::Less;
        }
        if b[i] < a[i] {
            assert(lex_at(b@, a@, byte_lt(), i as int));
            return Order::Greater;
        }
        i += 1;
    }
    if i < b.len() {
        assert(lex_at(a@, b@, byte_lt(), i as int));
        Order::Less
    } else if i < a.len() {
        assert(lex_at(b@, a@, byte_lt(), i as int));
        Order::Greater
    } else {
        assert(a@ =~= b@);
        Order::Equal
    }
}

/// The order of names: that of their encodings.
pub open spec fn name_before(a: Seq<char>, b: Seq<char>) -> bool {
    bytes_before(encode_utf8(a), encode_utf8(b))
}

/// Different names have different encodings.
pub proof fn lemma_encode_injective(a: Seq<char>, b: Seq<char>)
    requires
        encode_utf8(a) == encode_utf8(b),
    ensures
        a == b,
{
    encode_utf8_decode_utf8(a);
    encode_utf8_decode_utf8(b);
}

/// Of two different byte strings one comes first.
pub proof fn lemma_bytes_total(a: Seq<u8>, b: Seq<u8>)
    ensures
        a == b || bytes_before(a, b) || bytes_before(b, a),
{
    lemma_lex_total(a, b, byte_lt());
}

/// Of two different names one comes first.
pub proof fn lemma_names_total(a: Seq<char>, b: Seq<char>)
    ensures
        a == b || name_before(a, b) || name_before(b, a),
{
    lemma_bytes_total(encode_utf8(a), encode_utf8(b));
    if encode_utf8(a) == encode_utf8(b) {
        lemma_encode_injective(a, b);
    }
}

impl Key for String {
    open spec fn before(a: Seq<char>, b: Seq<char>) -> bool {
        name_before(a, b)
    }

    proof fn before_irreflexive(a: Seq<char>) {
        lemma_bytes_irreflexive(encode_utf8(a));
    }

    proof fn before_transitive(a: Seq<char>, b: Seq<char>, c: Seq<char>) {
        lemma_bytes_transitive(encode_utf8(a), encode_utf8(b), encode_utf8(c));
    }

    fn order(&self, other: &Self) -> (r: Order) {
        let r = order_bytes(self.as_str().as_bytes(), other.as_str().as_bytes());
        proof {
            if r == Order::Equal {
                lemma_encode_injective(self@, other@);
            }
        }
        r
    }

    fn dup(&self) -> (r: Self) {
        self.clone()
    }
}

} // verus!
