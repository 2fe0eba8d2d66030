//! Paths in the source tree.
use vstd::prelude::*;
use vstd::utf8::*;

use crate::order::{
    bytes_before, lemma_bytes_irreflexive, lemma_bytes_transitive, lemma_lex_irreflexive,
    lemma_lex_transitive, lex_at, lex_before, order_bytes, Key, Order,
};
use crate::text::copy_bytes;

verus! {

/// `/`
pub const SLASH: u8 = 47;

/// `.`
pub const DOT: u8 = 46;

/// The component that stands for the filesystem's root.
pub open spec fn root_comp() -> Seq<u8> {
    seq![SLASH]
}

/// The component `.`
pub open spec fn here_comp() -> Seq<u8> {
    seq![DOT]
}

/// The component `..`
pub open spec fn up_comp() -> Seq<u8> {
    seq![DOT, DOT]
}

/// `c` may stand at place `i` of a path: the root and `.` at the front only,
/// otherwise anything that is not empty and has no `/`.
pub open spec fn comp_ok(c: Seq<u8>, i: int) -> bool {
    if c == root_comp() || c == here_comp() {
        i == 0
    } else {
        c.len() > 0 && !c.contains(SLASH)
    }
}

/// The components of a path.
pub open spec fn path_ok(p: Seq<Seq<u8>>) -> bool {
    forall|i: int| 0 <= i < p.len() ==> comp_ok(#[trigger] p[i], i)
}

/// `c` names an entry of a directory.
pub open spec fn is_name(c: Seq<u8>) -> bool {
    c.len() > 0 && !c.contains(SLASH) && c != here_comp() && c != up_comp()
}

/// What stands between the slashes.
pub open spec fn pieces(b: Seq<u8>) -> Seq<Seq<u8>>
    decreases b.len(),
{
    if b.len() == 0 {
        seq![Seq::<u8>::empty()]
    } else {
        let p = pieces(b.drop_last());
        if b.last() == SLASH {
            p.push(Seq::empty())
        } else {
            p.drop_last().push(p.last().push(b.last()))
        }
    }
}

/// The pieces that count: empty ones and `.` do not.
pub open spec fn counts() -> spec_fn(Seq<u8>) -> bool {
    |c: Seq<u8>| c.len() > 0 && c != here_comp()
}

/// The path that bytes spell. A leading `/` or `.` is kept.
pub open spec fn parse_path(b: Seq<u8>) -> Seq<Seq<u8>> {
    let q = pieces(b);
    let lead = if b.len() > 0 && b[0] == SLASH {
        seq![root_comp()]
    } else if q[0] == here_comp() {
        seq![here_comp()]
    } else {
        Seq::empty()
    };
    lead + q.filter(counts())
}

/// `a`, then `b`. A path that begins at the root replaces what is before it.
pub open spec fn path_join(a: Seq<Seq<u8>>, b: Seq<Seq<u8>>) -> Seq<Seq<u8>> {
    if a.len() == 0 || (b.len() > 0 && b[0] == root_comp()) {
        b
    } else if b.len() > 0 && b[0] == here_comp() {
        a + b.skip(1)
    } else {
        a + b
    }
}

/// The path without its last component; the root and the empty path have no
/// parent.
pub open spec fn path_parent(p: Seq<Seq<u8>>) -> Option<Seq<Seq<u8>>> {
    if p.len() == 0 || p.last() == root_comp() {
        None
    } else {
        Some(p.drop_last())
    }
}

/// `p` is `q` or a directory above it.
pub open spec fn leads_to(p: Seq<Seq<u8>>, q: Seq<Seq<u8>>) -> bool {
    p.len() <= q.len() && q.take(p.len() as int) == p
}

/// Where `p` is after what was at `a` was moved to `b`.
pub open spec fn relocated(p: Seq<Seq<u8>>, a: Seq<Seq<u8>>, b: Seq<Seq<u8>>) -> Seq<Seq<u8>> {
    if leads_to(a, p) {
        path_join(b, p.skip(a.len() as int))
    } else {
        p
    }
}

/// The components with slashes between them.
pub open spec fn slashed(p: Seq<Seq<u8>>) -> Seq<u8>
    decreases p.len(),
{
    if p.len() == 0 {
        Seq::empty()
    } else if p.len() == 1 {
        p[0]
    } else {
        slashed(p.drop_last()).push(SLASH) + p.last()
    }
}

/// The bytes that spell a path.
pub open spec fn path_text(p: Seq<Seq<u8>>) -> Seq<u8> {
    if p.len() > 0 && p[0] == root_comp() {
        root_comp() + slashed(p.skip(1))
    } else {
        slashed(p)
    }
}

/// Each text in turn, joined to what came before it.
pub open spec fn path_of(names: Seq<Seq<char>>) -> Seq<Seq<u8>>
    decreases names.len(),
{
    if names.len() == 0 {
        Seq::empty()
    } else {
        path_join(path_of(names.drop_last()), parse_path(encode_utf8(names.last())))
    }
}

/// The root, `.`, `..`, then names.
pub open spec fn rank(c: Seq<u8>) -> int {
    if c == root_comp() {
        0
    } else if c == here_comp() {
        1
    } else if c == up_comp() {
        2
    } else {
        3
    }
}

/// The order of components: by kind, names by their bytes.
pub open spec fn comp_lt() -> spec_fn(Seq<u8>, Seq<u8>) -> bool {
    |a: Seq<u8>, b: Seq<u8>| rank(a) < rank(b) || (rank(a) == rank(b) && bytes_before(a, b))
}

/// The order of paths, component by component.
pub open spec fn path_before(a: Seq<Seq<u8>>, b: Seq<Seq<u8>>) -> bool {
    lex_before(a, b, comp_lt())
}

/// A path, held as its components.
#[derive(PartialEq, Eq, Debug)]
pub struct FsPath {
    comps: Vec<Vec<u8>>,
}

/// The views of a vector of byte strings.
pub open spec fn all_bytes(v: Seq<Vec<u8>>) -> Seq<Seq<u8>> {
    Seq::new(v.len(), |i: int| v[i]@)
}

impl View for FsPath {
    type V = Seq<Seq<u8>>;

    closed spec fn view(&self) -> Seq<Seq<u8>> {
        all_bytes(self.comps@)
    }
}

proof fn lemma_pieces_shape(b: Seq<u8>)
    ensures
        pieces(b).len() > 0,
        forall|i: int| 0 <= i < pieces(b).len() ==> !(#[trigger] pieces(b)[i]).contains(SLASH),
        b.len() > 0 && b[0] == SLASH ==> pieces(b)[0].len() == 0,
    decreases b.len(),
{
    if b.len() > 0 {
        lemma_pieces_shape(b.drop_last());
        let p = pieces(b.drop_last());
        if b.last() != SLASH {
            assert(!p.last().push(b.last()).contains(SLASH)) by {
                if p.last().push(b.last()).contains(SLASH) {
                    let i = choose|i: int| 0 <= i < p.last().len() + 1 && p.last().push(b.last())[i] == SLASH;
                    assert(p.last()[i] == SLASH);
                    assert(p[p.len() - 1].contains(SLASH));
                }
            }
            if b[0] == SLASH && p.len() == 1 {
                lemma_pieces_more(b.drop_last());
            }
        }
    }
}

/// A slash at the front makes a second piece.
proof fn lemma_pieces_more(b: Seq<u8>)
    requires
        b.len() > 0,
        b[0] == SLASH,
    ensures
        pieces(b).len() >= 2,
    decreases b.len(),
{
    assert(pieces(Seq::<u8>::empty()).len() == 1);
    if b.len() > 1 {
        lemma_pieces_more(b.drop_last());
    } else {
        assert(b.drop_last() =~= Seq::<u8>::empty());
    }
}

/// What bytes spell is a path.
pub proof fn lemma_parse_ok(b: Seq<u8>)
    ensures
        path_ok(parse_path(b)),
{
    let q = pieces(b);
    lemma_pieces_shape(b);
    let f = q.filter(counts());
    let p = parse_path(b);
    assert(!here_comp().contains(SLASH)) by {
        assert(here_comp()[0] == DOT);
    }
    assert forall|i: int| 0 <= i < f.len() implies #[trigger] f[i].len() > 0 && f[i] != here_comp()
        && !f[i].contains(SLASH) by {
        q.lemma_filter_contains_rev(counts(), f[i]);
    }
    assert forall|i: int| 0 <= i < p.len() implies comp_ok(#[trigger] p[i], i) by {
        let n = p.len() - f.len();
        if i >= n {
            assert(p[i] == f[i - n]);
            if p[i] == root_comp() {
                assert(root_comp()[0] == SLASH);
                assert(f[i - n].contains(SLASH));
            }
        }
    }
}

/// Joining keeps paths well formed.
pub proof fn lemma_join_ok(a: Seq<Seq<u8>>, b: Seq<Seq<u8>>)
    requires
        path_ok(a),
        path_ok(b),
    ensures
        path_ok(path_join(a, b)),
{
    let p = path_join(a, b);
    let n = if b.len() > 0 && b[0] == here_comp() { 1int } else { 0int };
    assert forall|i: int| 0 <= i < p.len() implies comp_ok(#[trigger] p[i], i) by {
        if a.len() == 0 || (b.len() > 0 && b[0] == root_comp()) {
        } else if i < a.len() {
            assert(p[i] == a[i]);
        } else {
            assert(p[i] == b[i - a.len() + n]);
            assert(comp_ok(b[i - a.len() + n], i - a.len() + n));
        }
    }
}

/// The bytes between the slashes.
fn split_slashes(b: &[u8]) -> (r: Vec<Vec<u8>>)
    ensures
        all_bytes(r@) == pieces(b@),
{
    let mut done: Vec<Vec<u8>> = Vec::new();
    let mut cur: Vec<u8> = Vec::new();
    let mut i: usize = 0;
    assert(b@.take(0) =~= Seq::<u8>::empty());
    assert(all_bytes(done@).push(cur@) =~= pieces(b@.take(0)));
    while i < b.len()
        invariant
            i <= b@.len(),
            all_bytes(done@).push(cur@) == pieces(b@.take(i as int)),
        decreases b@.len() - i,
    {
        let ghost before = all_bytes(done@);
        let ghost piece = cur@;
        let ghost p = pieces(b@.take(i as int));
        assert(b@.take(i + 1).drop_last() =~= b@.take(i as int));
        assert(p.drop_last() =~= before && p.last() == piece);
        if b[i] == SLASH {
            let mut full: Vec<u8> = Vec::new();
            std::mem::swap(&mut full, &mut cur);
            done.push(full);
            assert(all_bytes(done@) =~= before.push(piece));
            assert(cur@ =~= Seq::<u8>::empty());
        } else {
            cur.push(b[i]);
        }
        i += 1;
        assert(all_bytes(done@).push(cur@) =~= pieces(b@.take(i as int)));
    }
    assert(b@.take(i as int) =~= b@);
    let ghost before = all_bytes(done@);
    let ghost piece = cur@;
    done.push(cur);
    assert(all_bytes(done@) =~= before.push(piece));
    done
}

/// Whether `c` is `.`
fn is_here(c: &[u8]) -> (r: bool)
    ensures
        r == (c@ == here_comp()),
{
    let r = c.len() == 1 && c[0] == DOT;
    assert(r ==> c@ =~= here_comp());
    r
}

/// Whether `c` is the root.
fn is_root(c: &[u8]) -> (r: bool)
    ensures
        r == (c@ == root_comp()),
{
    let r = c.len() == 1 && c[0] == SLASH;
    assert(r ==> c@ =~= root_comp());
    r
}

/// Whether `c` is `..`
fn is_up(c: &[u8]) -> (r: bool)
    ensures
        r == (c@ == up_comp()),
{
    let r = c.len() == 2 && c[0] == DOT && c[1] == DOT;
    assert(r ==> c@ =~= up_comp());
    r
}

fn rank_of(c: &[u8]) -> (r: u8)
    ensures
        r == rank(c@),
{
    if is_root(c) {
        0
    } else if is_here(c) {
        1
    } else if is_up(c) {
        2
    } else {
        3
    }
}

/// Compares two components.
fn order_comps(a: &[u8], b: &[u8]) -> (r: Order)
    ensures
        match r {
            Order::Less => comp_lt()(a@, b@),
            Order::Equal => a@ == b@,
            Order::Greater => comp_lt()(b@, a@),
        },
{
    let x = rank_of(a);
    let y = rank_of(b);
    if x < y {
        Order::Less
    } else if y < x {
        Order::Greater
    } else {
        order_bytes(a, b)
    }
}

proof fn lemma_comp_lt()
    ensures
        forall|x: Seq<u8>| !#[trigger] comp_lt()(x, x),
        forall|x: Seq<u8>, y: Seq<u8>, z: Seq<u8>| #[trigger]
            comp_lt()(x, y) && #[trigger] comp_lt()(y, z) ==> comp_lt()(x, z),
{
    assert forall|x: Seq<u8>| !#[trigger] comp_lt()(x, x) by {
        lemma_bytes_irreflexive(x);
    }
    assert forall|x: Seq<u8>, y: Seq<u8>, z: Seq<u8>| #[trigger]
        comp_lt()(x, y) && #[trigger] comp_lt()(y, z) implies comp_lt()(x, z) by {
        if rank(x) == rank(y) && rank(y) == rank(z) {
            lemma_bytes_transitive(x, y, z);
        }
    }
}

impl FsPath {
    #[verifier::type_invariant]
    spec fn inv(self) -> bool {
        path_ok(self@)
    }

    /// The empty path, which stands for the top of the source tree.
    pub fn empty() -> (r: Self)
        ensures
            r@ == Seq::<Seq<u8>>::empty(),
    {
        let comps: Vec<Vec<u8>> = Vec::new();
        assert(all_bytes(comps@) =~= Seq::<Seq<u8>>::empty());
        FsPath { comps }
    }

    /// The path that `bytes` spell.
    pub fn from_bytes(bytes: &[u8]) -> (r: Self)
        ensures
            r@ == parse_path(bytes@),
            path_ok(r@),
    {
        let parts = split_slashes(bytes);
        let ghost q = pieces(bytes@);
        proof {
            lemma_pieces_shape(bytes@);
        }
        let mut comps: Vec<Vec<u8>> = Vec::new();
        let ghost mut lead = Seq::<Seq<u8>>::empty();
        assert(parts@[0]@ == q[0]);
        if bytes.len() > 0 && bytes[0] == SLASH {
            let mut c: Vec<u8> = Vec::new();
            c.push(SLASH);
            assert(c@ =~= root_comp());
            comps.push(c);
            proof {
                lead = seq![root_comp()];
            }
        } else if is_here(parts[0].as_slice()) {
            let mut c: Vec<u8> = Vec::new();
            c.push(DOT);
            assert(c@ =~= here_comp());
            comps.push(c);
            proof {
                lead = seq![here_comp()];
            }
        }
        assert(all_bytes(comps@) =~= lead);
        assert(lead + q.filter(counts()) == parse_path(bytes@));
        let mut i: usize = 0;
        assert(q.take(0).filter(counts()) =~= Seq::<Seq<u8>>::empty()) by {
            reveal(Seq::filter);
        }
        assert(all_bytes(comps@) =~= lead + q.take(0).filter(counts()));
        while i < parts.len()
            invariant
                i <= parts@.len(),
                all_bytes(parts@) == q,
                all_bytes(comps@) == lead + q.take(i as int).filter(counts()),
            decreases parts@.len() - i,
        {
            let ghost before = all_bytes(comps@);
            assert(parts@[i as int]@ == q[i as int]);
            assert(q.take(i + 1).drop_last() =~= q.take(i as int));
            assert(q.take(i + 1).last() == q[i as int]);
            proof {
                reveal(Seq::filter);
            }
            let part = parts[i].as_slice();
            if part.len() > 0 && !is_here(part) {
                comps.push(copy_bytes(part));
                assert(all_bytes(comps@) =~= before.push(q[i as int]));
            }
            i += 1;
            assert(all_bytes(comps@) =~= lead + q.take(i as int).filter(counts()));
        }
        assert(q.take(i as int) =~= q);
        proof {
            lemma_parse_ok(bytes@);
        }
        FsPath { comps }
    }

    /// The path that a text spells.
    pub fn from_text(s: &str) -> (r: Self)
        ensures
            r@ == parse_path(encode_utf8(s@)),
            path_ok(r@),
    {
        FsPath::from_bytes(s.as_bytes())
    }

    /// The number of components.
    pub fn len(&self) -> (n: usize)
        ensures
            n == self@.len(),
            path_ok(self@),
    {
        proof {
            use_type_invariant(self);
        }
        self.comps.len()
    }

    pub fn is_empty(&self) -> (r: bool)
        ensures
            r == (self@.len() == 0),
    {
        self.comps.len() == 0
    }

    /// The component at place `i`.
    pub fn comp(&self, i: usize) -> (r: &[u8])
        requires
            i < self@.len(),
        ensures
            r@ == self@[i as int],
    {
        self.comps[i].as_slice()
    }

    /// Whether the component at place `i` names a directory entry.
    pub fn is_name_at(&self, i: usize) -> (r: bool)
        requires
            i < self@.len(),
        ensures
            r == is_name(self@[i as int]),
    {
        proof {
            use_type_invariant(self);
            assert(comp_ok(self@[i as int], i as int));
            assert(root_comp()[0] == SLASH);
            assert(root_comp().contains(SLASH));
        }
        let c = self.comp(i);
        !is_root(c) && !is_here(c) && !is_up(c)
    }

    /// The first `n` components.
    pub fn prefix(&self, n: usize) -> (r: Self)
        requires
            n <= self@.len(),
        ensures
            r@ == self@.take(n as int),
            path_ok(r@),
    {
        proof {
            use_type_invariant(self);
        }
        let mut comps: Vec<Vec<u8>> = Vec::new();
        let mut i: usize = 0;
        while i < n
            invariant
                i <= n <= self@.len(),
                all_bytes(comps@) =~= self@.take(i as int),
            decreases n - i,
        {
            let ghost before = all_bytes(comps@);
            comps.push(copy_bytes(self.comp(i)));
            assert(all_bytes(comps@) =~= before.push(self@[i as int]));
            i += 1;
        }
        FsPath { comps }
    }

    /// The components after the first `n`.
    pub fn suffix(&self, n: usize) -> (r: Self)
        requires
            n <= self@.len(),
        ensures
            r@ == self@.skip(n as int),
            path_ok(r@),
    {
        proof {
            use_type_invariant(self);
            assert forall|j: int| 0 <= j < self@.len() - n implies comp_ok(
                #[trigger] self@.skip(n as int)[j],
                j,
            ) by {
                assert(comp_ok(self@[j + n], j + n));
            }
        }
        let mut comps: Vec<Vec<u8>> = Vec::new();
        let mut i: usize = n;
        assert(all_bytes(comps@) =~= self@.subrange(n as int, n as int));
        while i < self.comps.len()
            invariant
                n <= i <= self@.len(),
                self@.len() == self.comps@.len(),
                all_bytes(comps@) =~= self@.subrange(n as int, i as int),
            decreases self@.len() - i,
        {
            let ghost before = all_bytes(comps@);
            comps.push(copy_bytes(self.comp(i)));
            assert(all_bytes(comps@) =~= before.push(self@[i as int]));
            i += 1;
        }
        assert(all_bytes(comps@) =~= self@.skip(n as int));
        FsPath { comps }
    }

    /// Whether this path is `other` or a directory above it.
    pub fn leads_to(&self, other: &Self) -> (r: bool)
        ensures
            r == leads_to(self@, other@),
    {
        let n = self.len();
        if other.len() < n {
            return false;
        }
        let head = other.prefix(n);
        let r = match self.order(&head) {
            Order::Equal => true,
            _ => false,
        };
        proof {
            <FsPath as Key>::before_irreflexive(self@);
        }
        r
    }

    /// Where this path is after what was at `from` was moved to `to`.
    pub fn relocate(&self, from: &Self, to: &Self) -> (r: Self)
        ensures
            r@ == relocated(self@, from@, to@),
    {
        if from.leads_to(self) {
            to.join(&self.suffix(from.len()))
        } else {
            self.dup()
        }
    }

    /// A second path with the same components.
    pub fn dup(&self) -> (r: Self)
        ensures
            r@ == self@,
            path_ok(r@),
    {
        let r = self.prefix(self.comps.len());
        assert(self@.take(self@.len() as int) =~= self@);
        r
    }

    /// The path without its last component.
    pub fn parent(&self) -> (r: Option<Self>)
        ensures
            match r {
                Some(p) => path_parent(self@) == Some(p@),
                None => path_parent(self@) is None,
            },
    {
        let n = self.len();
        if n == 0 || is_root(self.comp(n - 1)) {
            None
        } else {
            assert(self@.take(n - 1) =~= self@.drop_last());
            Some(self.prefix(n - 1))
        }
    }

    /// This path, then `other`.
    pub fn join(&self, other: &Self) -> (r: Self)
        ensures
            r@ == path_join(self@, other@),
            path_ok(r@),
    {
        proof {
            use_type_invariant(self);
            use_type_invariant(other);
            lemma_join_ok(self@, other@);
        }
        let n = other.len();
        if self.len() == 0 || (n > 0 && is_root(other.comp(0))) {
            return other.dup();
        }
        let mut i: usize = 0;
        if n > 0 && is_here(other.comp(0)) {
            i = 1;
        }
        let ghost start = i as int;
        let FsPath { mut comps } = self.dup();
        assert(other@.subrange(start, i as int) =~= Seq::<Seq<u8>>::empty());
        while i < n
            invariant
                start <= i <= n,
                n == other@.len(),
                0 <= start,
                all_bytes(comps@) =~= self@ + other@.subrange(start, i as int),
            decreases n - i,
        {
            let ghost before = all_bytes(comps@);
            comps.push(copy_bytes(other.comp(i)));
            assert(all_bytes(comps@) =~= before.push(other@[i as int]));
            i += 1;
        }
        assert(all_bytes(comps@) =~= path_join(self@, other@));
        FsPath { comps }
    }

    /// This path, then what `name` spells.
    pub fn join_text(&self, name: &str) -> (r: Self)
        ensures
            r@ == path_join(self@, parse_path(encode_utf8(name@))),
            path_ok(r@),
    {
        self.join(&FsPath::from_text(name))
    }

    /// The bytes that spell the path.
    pub fn to_bytes(&self) -> (r: Vec<u8>)
        ensures
            r@ == path_text(self@),
    {
        let n = self.len();
        let mut out: Vec<u8> = Vec::new();
        let mut i: usize = 0;
        let ghost mut head = Seq::<u8>::empty();
        let ghost mut rest = self@;
        if n > 0 && is_root(self.comp(0)) {
            out.push(SLASH);
            i = 1;
            proof {
                head = root_comp();
                rest = self@.skip(1);
            }
        }
        let start: usize = i;
        assert(out@ =~= head);
        assert(rest =~= self@.skip(start as int));
        assert(slashed(rest.take(0)) =~= Seq::<u8>::empty());
        while i < n
            invariant
                0 <= start <= i <= n,
                n == self@.len(),
                rest == self@.skip(start as int),
                out@ =~= head + slashed(rest.take(i - start)),
                head.len() == start,
                start <= 1,
                i > start ==> rest.len() > 0,
            decreases n - i,
        {
            let ghost k = i - start;
            assert(rest.take(k + 1).drop_last() =~= rest.take(k));
            assert(rest.take(k + 1).last() == self@[i as int]);
            let ghost before = out@;
            if i > start {
                out.push(SLASH);
            }
            let c = self.comp(i);
            let mut j: usize = 0;
            let ghost mid = out@;
            while j < c.len()
                invariant
                    j <= c@.len(),
                    out@ =~= mid + c@.take(j as int),
                decreases c@.len() - j,
            {
                out.push(c[j]);
                j += 1;
            }
            assert(c@.take(j as int) =~= c@);
            i += 1;
        }
        assert(rest.take(n - start) =~= rest);
        out
    }
}

impl Key for FsPath {
    open spec fn before(a: Seq<Seq<u8>>, b: Seq<Seq<u8>>) -> bool {
        path_before(a, b)
    }

    proof fn before_irreflexive(a: Seq<Seq<u8>>) {
        lemma_comp_lt();
        lemma_lex_irreflexive(a, comp_lt());
    }

    proof fn before_transitive(a: Seq<Seq<u8>>, b: Seq<Seq<u8>>, c: Seq<Seq<u8>>) {
        lemma_comp_lt();
        lemma_lex_transitive(a, b, c, comp_lt());
    }

    fn order(&self, other: &Self) -> (r: Order) {
        let m = self.len();
        let n = other.len();
        let mut i: usize = 0;
        while i < m && i < n
            invariant
                m == self@.len(),
                n == other@.len(),
                i <= m,
                i <= n,
                forall|j: int| 0 <= j < i ==> #[trigger] self@[j] == other@[j],
            decreases m - i,
        {
            match order_comps(self.comp(i), other.comp(i)) {
                Order::Less => {
                    assert(lex_at(self@, other@, comp_lt(), i as int));
                    return Order::Less;
                },
                Order::Greater => {
                    assert(lex_at(other@, self@, comp_lt(), i as int));
                    return Order::Greater;
                },
                Order::Equal => {},
            }
            i += 1;
        }
        if i < n {
            assert(lex_at(self@, other@, comp_lt(), i as int));
            Order::Less
        } else if i < m {
            assert(lex_at(other@, self@, comp_lt(), i as int));
            Order::Greater
        } else {
            assert(self@ =~= other@);
            Order::Equal
        }
    }

    fn dup(&self) -> (r: Self) {
        FsPath::dup(self)
    }
}

} // verus!
