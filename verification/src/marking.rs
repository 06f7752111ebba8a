use vstd::prelude::*;

use crate::dsl::{join_items, joined, seqs};
use crate::text::{chars_of, concat, decimal, decimal_chars, string_of};

verus! {

/// The entries `p{i}: {n}` of the places among the first `n` of `m` that hold
/// tokens, in place order.
pub open spec fn held_entries(m: Seq<usize>, n: nat) -> Seq<Seq<char>>
    decreases n,
{
    if n == 0 {
        Seq::empty()
    } else {
        let prev = held_entries(m, (n - 1) as nat);
        if m[n - 1] == 0 {
            prev
        } else {
            prev.push(seq!['p'] + decimal((n - 1) as nat) + ": "@ + decimal(m[n - 1] as nat))
        }
    }
}

/// A marking as its debug form writes it: `M{p0: 2, p3: 1}`, the places
/// without tokens left out.
pub open spec fn marking_debug_text(m: Seq<usize>) -> Seq<char> {
    "M{"@ + joined(held_entries(m, m.len())) + "}"@
}

/// Token count of every place of a net, indexed by place number.
#[derive(Clone, PartialEq, Eq, PartialOrd, Ord, Hash, Debug)]
pub struct Marking(pub(crate) Vec<usize>);

/// A marking paired with the capacity shared by all places (reserved for
/// capacity-bounded nets).
pub struct MarkingFixed(pub(crate) Vec<usize>, pub(crate) usize);

impl View for Marking {
    type V = Seq<usize>;

    closed spec fn view(&self) -> Seq<usize> {
        self.0@
    }
}

impl Marking {
    /// The marking holding `tokens[i]` tokens in place `i`.
    pub fn new(tokens: Vec<usize>) -> (m: Self)
        ensures
            m@ == tokens@,
    {
        Marking(tokens)
    }

    /// Number of tokens in `place_id`.
    pub fn tokens(&self, place_id: crate::net::PlaceId) -> (n: usize)
        requires
            place_id.0 < self@.len(),
        ensures
            n == self@[place_id.0 as int],
    {
        self.0[place_id.0]
    }

    /// Number of places this marking covers.
    pub fn len(&self) -> (n: usize)
        ensures
            n == self@.len(),
    {
        self.0.len()
    }

    /// Token count at index `i`.
    pub(crate) fn get(&self, i: usize) -> (n: usize)
        requires
            i < self@.len(),
        ensures
            n == self@[i as int],
    {
        self.0[i]
    }

    /// Sets the token count at index `i`.
    pub(crate) fn set(&mut self, i: usize, v: usize)
        requires
            i < old(self)@.len(),
        ensures
            final(self)@ == old(self)@.update(i as int, v),
    {
        self.0.set(i, v);
    }

    /// The debug form of this marking: `M{p0: 2, p3: 1}`, the places without
    /// tokens left out.
    pub fn debug_text(&self) -> (s: String)
        ensures
            s@ == marking_debug_text(self@),
    {
        let mut items: Vec<Vec<char>> = Vec::new();
        let mut i: usize = 0;
        while i < self.0.len()
            invariant
                i <= self@.len(),
                seqs(items@) == held_entries(self@, i as nat),
            decreases self@.len() - i,
        {
            let n = self.0[i];
            if n != 0 {
                let head = concat(&chars_of("p"), &decimal_chars(i as u64));
                let entry = concat(&concat(&head, &chars_of(": ")), &decimal_chars(n as u64));
                let ghost before = items@;
                items.push(entry);
                proof {
                    reveal_strlit("p");
                    assert("p"@ =~= seq!['p']);
                    assert(seqs(items@) =~= seqs(before).push(entry@));
                }
            }
            i += 1;
        }
        let body = join_items(&items);
        let text = concat(&concat(&chars_of("M{"), &body), &chars_of("}"));
        string_of(&text)
    }

    /// A copy of this marking.
    pub fn duplicate(&self) -> (m: Self)
        ensures
            m@ == self@,
    {
        let v = self.0.clone();
        assert(v@ =~= self.0@);
        Marking(v)
    }

    /// Whether both markings hold the same tokens in the same places.
    pub fn same(&self, other: &Marking) -> (b: bool)
        ensures
            b == (self@ == other@),
    {
        if self.0.len() != other.0.len() {
            return false;
        }
        let n = self.0.len();
        let mut i: usize = 0;
        while i < n
            invariant
                n == self@.len(),
                n == other@.len(),
                i <= n,
                forall|j: int| 0 <= j < i ==> self@[j] == other@[j],
            decreases n - i,
        {
            if self.0[i] != other.0[i] {
                return false;
            }
            i += 1;
        }
        assert(self@ =~= other@);
        true
    }
}

impl crate::graph::State for Marking {
    fn state_eq(&self, other: &Self) -> (b: bool) {
        self.same(other)
    }

    fn state_clone(&self) -> (r: Self) {
        self.duplicate()
    }
}

/// `a` comes before `b` in the order of markings: at the first place where
/// they differ `a` holds fewer tokens, or `a` is a proper prefix of `b`.
pub open spec fn marking_lt(a: Seq<usize>, b: Seq<usize>) -> bool
    decreases a.len(),
{
    if a.len() == 0 {
        b.len() > 0
    } else if b.len() == 0 {
        false
    } else if a[0] != b[0] {
        a[0] < b[0]
    } else {
        marking_lt(a.drop_first(), b.drop_first())
    }
}

/// The order of markings is a strict total order.
pub proof fn lemma_marking_order(a: Seq<usize>, b: Seq<usize>, c: Seq<usize>)
    ensures
        !marking_lt(a, a),
        marking_lt(a, b) ==> !marking_lt(b, a),
        a != b ==> marking_lt(a, b) || marking_lt(b, a),
        marking_lt(a, b) && marking_lt(b, c) ==> marking_lt(a, c),
{
    lemma_marking_irreflexive(a);
    lemma_marking_asymmetric(a, b);
    lemma_marking_total(a, b);
    lemma_marking_transitive(a, b, c);
}

proof fn lemma_marking_irreflexive(a: Seq<usize>)
    ensures
        !marking_lt(a, a),
    decreases a.len(),
{
    if a.len() > 0 {
        lemma_marking_irreflexive(a.drop_first());
    }
}

proof fn lemma_marking_asymmetric(a: Seq<usize>, b: Seq<usize>)
    ensures
        marking_lt(a, b) ==> !marking_lt(b, a),
    decreases a.len(),
{
    if a.len() > 0 && b.len() > 0 {
        lemma_marking_asymmetric(a.drop_first(), b.drop_first());
    }
}

proof fn lemma_marking_total(a: Seq<usize>, b: Seq<usize>)
    ensures
        a != b ==> marking_lt(a, b) || marking_lt(b, a),
    decreases a.len(),
{
    if a.len() > 0 && b.len() > 0 {
        lemma_marking_total(a.drop_first(), b.drop_first());
        if a[0] == b[0] && a.drop_first() =~= b.drop_first() {
            assert(a.len() == b.len());
            assert(a =~= b) by {
                assert forall|i: int| 0 <= i < a.len() implies a[i] == b[i] by {
                    if i > 0 {
                        assert(a[i] == a.drop_first()[i - 1]);
                        assert(b[i] == b.drop_first()[i - 1]);
                    }
                };
            };
        }
    } else if a.len() == 0 && b.len() == 0 {
        assert(a =~= b);
    }
}

proof fn lemma_marking_transitive(a: Seq<usize>, b: Seq<usize>, c: Seq<usize>)
    ensures
        marking_lt(a, b) && marking_lt(b, c) ==> marking_lt(a, c),
    decreases a.len(),
{
    if a.len() > 0 && b.len() > 0 && c.len() > 0 {
        lemma_marking_transitive(a.drop_first(), b.drop_first(), c.drop_first());
    }
}

/// Whether `a` comes before `b` in the order of markings.
pub fn marking_less(a: &Marking, b: &Marking) -> (r: bool)
    ensures
        r == marking_lt(a@, b@),
{
    let n = a.len();
    let m = b.len();
    let mut i: usize = 0;
    assert(a@.skip(0) =~= a@ && b@.skip(0) =~= b@);
    while i < n && i < m
        invariant
            n == a@.len(),
            m == b@.len(),
            i <= n,
            i <= m,
            marking_lt(a@, b@) == marking_lt(a@.skip(i as int), b@.skip(i as int)),
        decreases n - i,
    {
        let x = a.get(i);
        let y = b.get(i);
        if x != y {
            proof {
                assert(a@.skip(i as int)[0] == x && b@.skip(i as int)[0] == y);
            }
            return x < y;
        }
        proof {
            assert(a@.skip(i as int).drop_first() =~= a@.skip(i + 1));
            assert(b@.skip(i as int).drop_first() =~= b@.skip(i + 1));
        }
        i += 1;
    }
    i < m
}

/// Values ordered by a marking they carry.
pub trait ByMarking {
    /// The marking the value is ordered by.
    spec fn marking_key(&self) -> Seq<usize>;

    /// The marking the value is ordered by.
    fn key(&self) -> (r: &Marking)
        ensures
            r@ == self.marking_key(),
    ;
}

impl ByMarking for Marking {
    open spec fn marking_key(&self) -> Seq<usize> {
        self@
    }

    fn key(&self) -> (r: &Marking) {
        self
    }
}

impl<V> ByMarking for (Marking, V) {
    open spec fn marking_key(&self) -> Seq<usize> {
        self.0@
    }

    fn key(&self) -> (r: &Marking) {
        &self.0
    }
}

/// `v` in the order of the markings its values carry.
pub open spec fn in_marking_order<T: ByMarking>(v: Seq<T>) -> bool {
    forall|a: int, b: int| 0 <= a < b < v.len() ==> marking_lt((#[trigger] v[a]).marking_key(), (#[trigger] v[b]).marking_key())
}

/// Where the value at each position of `r` came from in `orig` (`perm`), and
/// where each value of `orig` from `lo` on went in `r` (`inv`).
pub open spec fn placed<T>(orig: Seq<T>, lo: int, r: Seq<T>, perm: Seq<int>, inv: Seq<int>) -> bool {
    &&& perm.len() == r.len()
    &&& inv.len() == orig.len()
    &&& forall|i: int| 0 <= i < r.len() ==> lo <= #[trigger] perm[i] < orig.len() && r[i] == orig[perm[i]]
    &&& forall|j: int| lo <= j < orig.len() ==> 0 <= #[trigger] inv[j] < r.len() && r[inv[j]] == orig[j]
}

/// Inserting `x`, whose marking differs from all of `before`, before the first
/// value whose marking comes after its own keeps the marking order.
#[verifier::spinoff_prover]
proof fn lemma_insert_sorted<T: ByMarking>(before: Seq<T>, pos: int, x: T)
    requires
        0 <= pos <= before.len(),
        in_marking_order(before),
        forall|i: int| 0 <= i < pos ==> !marking_lt(x.marking_key(), (#[trigger] before[i]).marking_key()),
        pos < before.len() ==> marking_lt(x.marking_key(), before[pos].marking_key()),
        forall|i: int| 0 <= i < before.len() ==> (#[trigger] before[i]).marking_key() != x.marking_key(),
    ensures
        in_marking_order(before.insert(pos, x)),
{
    let r = before.insert(pos, x);
    assert forall|a: int, b: int| 0 <= a < b < r.len()
        implies marking_lt((#[trigger] r[a]).marking_key(), (#[trigger] r[b]).marking_key()) by {
        if b < pos {
            assert(r[a] == before[a] && r[b] == before[b]);
        } else if b == pos {
            assert(r[a] == before[a]);
            lemma_marking_order(before[a].marking_key(), x.marking_key(), x.marking_key());
        } else if a == pos {
            assert(r[b] == before[b - 1]);
            if b - 1 > pos {
                lemma_marking_order(x.marking_key(), before[pos].marking_key(), before[b - 1].marking_key());
            }
        } else if a < pos {
            assert(r[a] == before[a] && r[b] == before[b - 1]);
        } else {
            assert(r[a] == before[a - 1] && r[b] == before[b - 1]);
        }
    };
}

/// The first position of `r` whose marking comes after that of `x`, or its length.
fn insert_position<T: ByMarking>(x: &T, r: &Vec<T>) -> (pos: usize)
    ensures
        pos <= r@.len(),
        forall|i: int| 0 <= i < pos ==> !marking_lt(x.marking_key(), (#[trigger] r@[i]).marking_key()),
        pos < r@.len() ==> marking_lt(x.marking_key(), r@[pos as int].marking_key()),
{
    let mut pos: usize = 0;
    while pos < r.len()
        invariant
            pos <= r@.len(),
            forall|i: int| 0 <= i < pos ==> !marking_lt(x.marking_key(), (#[trigger] r@[i]).marking_key()),
        decreases r@.len() - pos,
    {
        if marking_less(x.key(), r[pos].key()) {
            return pos;
        }
        pos += 1;
    }
    pos
}

/// The values of `v`, whose markings differ, in the order of their markings.
#[verifier::spinoff_prover]
#[verifier::rlimit(40)]
pub fn sort_by_marking<T: ByMarking>(v: Vec<T>) -> (r: Vec<T>)
    requires
        forall|a: int, b: int| 0 <= a < b < v@.len() ==> (#[trigger] v@[a]).marking_key() != (#[trigger] v@[b]).marking_key(),
    ensures
        r@.len() == v@.len(),
        in_marking_order(r@),
        exists|perm: Seq<int>, inv: Seq<int>| #[trigger] placed(v@, 0, r@, perm, inv),
{
    let ghost orig = v@;
    let mut rest = v;
    let mut r: Vec<T> = Vec::new();
    let ghost mut perm: Seq<int> = Seq::empty();
    let ghost mut inv: Seq<int> = Seq::new(orig.len(), |j: int| 0int);
    while rest.len() > 0
        invariant
            rest@ == orig.take(rest@.len() as int),
            rest@.len() <= orig.len(),
            r@.len() + rest@.len() == orig.len(),
            forall|a: int, b: int| 0 <= a < b < orig.len() ==> (#[trigger] orig[a]).marking_key() != (#[trigger] orig[b]).marking_key(),
            in_marking_order(r@),
            placed(orig, rest@.len() as int, r@, perm, inv),
        decreases rest@.len(),
    {
        let ghost k = (rest@.len() - 1) as int;
        let x = rest.pop().unwrap();
        assert(x == orig[k]);
        assert(rest@ =~= orig.take(k));
        let pos = insert_position(&x, &r);
        let ghost before = r@;
        proof {
            assert forall|i: int| 0 <= i < before.len() implies (#[trigger] before[i]).marking_key() != x.marking_key() by {
                assert(k < perm[i]);
                assert(before[i] == orig[perm[i]]);
            };
            lemma_insert_sorted(before, pos as int, x);
        }
        r.insert(pos, x);
        proof {
            let p = pos as int;
            let perm2 = perm.insert(p, k);
            let inv2 = Seq::new(orig.len(), |j: int| if j == k { p } else if inv[j] >= p { inv[j] + 1 } else { inv[j] });
            assert forall|i: int| 0 <= i < r@.len() implies k <= #[trigger] perm2[i] < orig.len() && r@[i] == orig[perm2[i]] by {
                if i < p {
                    assert(r@[i] == before[i] && perm2[i] == perm[i]);
                } else if i > p {
                    assert(r@[i] == before[i - 1] && perm2[i] == perm[i - 1]);
                }
            };
            assert forall|j: int| k <= j < orig.len() implies 0 <= #[trigger] inv2[j] < r@.len() && r@[inv2[j]] == orig[j] by {
                if j > k {
                    if inv[j] >= p {
                        assert(r@[inv[j] + 1] == before[inv[j]]);
                    } else {
                        assert(r@[inv[j]] == before[inv[j]]);
                    }
                }
            };
            perm = perm2;
            inv = inv2;
        }
    }
    proof {
        assert(rest@.len() == 0);
        assert(orig == v@);
        assert(placed(v@, 0, r@, perm, inv));
    }
    r
}

} // verus!
