use vstd::prelude::*;

use crate::graph::{edges_view, lemma_unique_within, views, Graph, State};
use crate::marking::Marking;

verus! {

/// Weight of an arc: how many tokens it consumes or produces.
#[derive(Default, Clone, Copy, PartialEq, Eq, PartialOrd, Ord, Hash, Debug, Structural)]
pub struct Weight(pub usize);

/// Index of a place in its net.
#[derive(Default, Clone, Copy, PartialEq, Eq, PartialOrd, Ord, Hash, Debug, Structural)]
pub struct PlaceId(pub usize);

/// Index of a transition in its net.
#[derive(Default, Clone, Copy, PartialEq, Eq, PartialOrd, Ord, Hash, Debug, Structural)]
pub struct TransitionId(pub usize);

impl Weight {
    /// The weight `w`.
    pub fn new(w: usize) -> (r: Self)
        ensures
            r.0 == w,
    {
        Weight(w)
    }
}

/// A place together with its current token count.
#[derive(Clone, Copy)]
pub struct Place {
    pub(crate) id: PlaceId,
    pub(crate) tokens: usize,
}

/// How an input place gates (and feeds) a transition.
#[derive(Clone, Copy, PartialEq, Eq, Debug, Structural)]
pub enum ArcKind {
    /// The place needs at least `w` tokens, and firing removes them.
    Consume(Weight),
    /// The place needs at least one token, and firing leaves it untouched.
    Peek,
    /// The place must be empty.
    Inhibit,
}

/// Whether an input arc of kind `k` lets a transition fire with `tokens` in its place.
pub open spec fn kind_allows(k: ArcKind, tokens: usize) -> bool {
    match k {
        ArcKind::Consume(w) => tokens >= w.0,
        ArcKind::Peek => tokens > 0,
        ArcKind::Inhibit => tokens == 0,
    }
}

/// Tokens an input arc of kind `k` removes.
pub open spec fn kind_consumes(k: ArcKind) -> nat {
    match k {
        ArcKind::Consume(w) => w.0 as nat,
        _ => 0,
    }
}

/// Entries strictly increasing by place index (so no place occurs twice).
pub open spec fn sorted_by_place<K>(s: Seq<(PlaceId, K)>) -> bool {
    forall|i: int, j: int| 0 <= i < j < s.len() ==> s[i].0.0 < s[j].0.0
}

/// Every entry names a place below `n`.
pub open spec fn places_below<K>(s: Seq<(PlaceId, K)>, n: nat) -> bool {
    forall|i: int| 0 <= i < s.len() ==> s[i].0.0 < n
}

/// Total number of tokens the input entries `s` remove from place `p`.
pub open spec fn consumed(s: Seq<(PlaceId, ArcKind)>, p: int) -> nat
    decreases s.len(),
{
    if s.len() == 0 {
        0
    } else {
        consumed(s.drop_last(), p) + if s.last().0.0 == p {
            kind_consumes(s.last().1)
        } else {
            0
        }
    }
}

/// Total number of tokens the output entries `s` add to place `p`.
pub open spec fn produced(s: Seq<(PlaceId, Weight)>, p: int) -> nat
    decreases s.len(),
{
    if s.len() == 0 {
        0
    } else {
        produced(s.drop_last(), p) + if s.last().0.0 == p {
            s.last().1.0 as nat
        } else {
            0
        }
    }
}

/// Mathematical model of an [`Arc`]: its input and output entries in place order.
pub struct ArcsView {
    pub inputs: Seq<(PlaceId, ArcKind)>,
    pub output: Seq<(PlaceId, Weight)>,
}

impl ArcsView {
    pub open spec fn wf(self) -> bool {
        sorted_by_place(self.inputs) && sorted_by_place(self.output)
    }

    /// Every arc touches a place below `n`.
    pub open spec fn within(self, n: nat) -> bool {
        places_below(self.inputs, n) && places_below(self.output, n)
    }

    /// Every input arc lets the transition fire in `m`.
    pub open spec fn enabled(self, m: Seq<usize>) -> bool {
        forall|j: int| #![trigger self.inputs[j]]
            0 <= j < self.inputs.len() ==> kind_allows(self.inputs[j].1, m[self.inputs[j].0.0 as int])
    }

    /// Token count of place `p` after firing in `m`, as an unbounded integer.
    pub open spec fn fired_count(self, m: Seq<usize>, p: int) -> int {
        m[p] - consumed(self.inputs, p) + produced(self.output, p)
    }

    /// Firing in `m` keeps every count within `usize`.
    pub open spec fn fits(self, m: Seq<usize>) -> bool {
        forall|p: int| 0 <= p < m.len() ==> #[trigger] self.fired_count(m, p) <= usize::MAX
    }

    /// The marking reached by firing in `m`.
    pub open spec fn fire(self, m: Seq<usize>) -> Seq<usize> {
        Seq::new(m.len(), |p: int| self.fired_count(m, p) as usize)
    }
}

/// Input arcs (place to transition, any kind) and output arcs (transition to
/// place, always producing) of one transition, each kept in place order with at
/// most one arc per place and direction.
#[derive(Clone, Debug)]
pub struct Arc {
    pub(crate) inputs: Vec<(PlaceId, ArcKind)>,
    pub(crate) output: Vec<(PlaceId, Weight)>,
}

impl View for Arc {
    type V = ArcsView;

    closed spec fn view(&self) -> ArcsView {
        ArcsView { inputs: self.inputs@, output: self.output@ }
    }
}

/// `s` with `(p, v)` put in place order: replacing the entry of `p` if there is
/// one, inserted before the first greater place otherwise.
pub open spec fn place_insert<K>(s: Seq<(PlaceId, K)>, p: PlaceId, v: K) -> Seq<(PlaceId, K)> {
    if exists|j: int| 0 <= j < s.len() && s[j].0 == p {
        s.update(choose|j: int| 0 <= j < s.len() && s[j].0 == p, (p, v))
    } else {
        s.insert(count_below(s, p.0), (p, v))
    }
}

/// Number of entries whose place index is below `p`.
pub open spec fn count_below<K>(s: Seq<(PlaceId, K)>, p: usize) -> int
    decreases s.len(),
{
    if s.len() == 0 {
        0
    } else {
        count_below(s.drop_last(), p) + if s.last().0.0 < p {
            1int
        } else {
            0
        }
    }
}

proof fn lemma_count_below_sorted<K>(s: Seq<(PlaceId, K)>, p: usize, k: int)
    requires
        sorted_by_place(s),
        0 <= k <= s.len(),
        forall|i: int| 0 <= i < k ==> s[i].0.0 < p,
        forall|i: int| k <= i < s.len() ==> s[i].0.0 > p,
    ensures
        count_below(s, p) == k,
    decreases s.len(),
{
    if s.len() > 0 {
        if k == s.len() {
            lemma_count_below_sorted(s.drop_last(), p, k - 1);
        } else {
            lemma_count_below_sorted(s.drop_last(), p, k);
        }
    }
}

proof fn lemma_count_below_range<K>(s: Seq<(PlaceId, K)>, p: usize)
    ensures
        0 <= count_below(s, p) <= s.len(),
    decreases s.len(),
{
    if s.len() > 0 {
        lemma_count_below_range(s.drop_last(), p);
    }
}

/// Putting an entry for a place below `n` keeps every place below `n`.
pub proof fn lemma_place_insert_below<K>(s: Seq<(PlaceId, K)>, p: PlaceId, v: K, n: nat)
    requires
        places_below(s, n),
        p.0 < n,
    ensures
        places_below(place_insert(s, p, v), n),
{
    let r = place_insert(s, p, v);
    if exists|j: int| 0 <= j < s.len() && s[j].0 == p {
        assert forall|i: int| 0 <= i < r.len() implies r[i].0.0 < n by {
            assert(r[i] == s[i] || r[i] == (p, v));
        };
    } else {
        let c = count_below(s, p.0);
        lemma_count_below_range(s, p.0);
        assert(r =~= s.insert(c, (p, v)));
        assert forall|i: int| 0 <= i < r.len() implies r[i].0.0 < n by {
            if i < c {
                assert(r[i] == s[i]);
            } else if i > c {
                assert(r[i] == s[i - 1]);
            }
        };
    }
}

/// Puts `(p, v)` into the place-ordered vector `v`, replacing an existing entry for `p`.
fn sorted_put<K: Copy>(s: &mut Vec<(PlaceId, K)>, p: PlaceId, v: K)
    requires
        sorted_by_place(old(s)@),
    ensures
        final(s)@ == place_insert(old(s)@, p, v),
        sorted_by_place(final(s)@),
{
    let n = s.len();
    let mut i: usize = 0;
    while i < n
        invariant
            n == s@.len(),
            s@ == old(s)@,
            sorted_by_place(s@),
            i <= n,
            forall|j: int| 0 <= j < i ==> s@[j].0.0 < p.0,
        decreases n - i,
    {
        if s[i].0.0 == p.0 {
            proof {
                assert(s@[i as int].0 == p);
                let c = choose|j: int| 0 <= j < s@.len() && s@[j].0 == p;
                assert(c == i) by {
                    if c < i {
                    } else if c > i {
                    }
                };
            }
            s.set(i, (p, v));
            return;
        }
        if s[i].0.0 > p.0 {
            proof {
                assert forall|j: int| 0 <= j < s@.len() implies s@[j].0 != p by {
                    if j < i {
                    } else if j > i {
                    }
                };
                lemma_count_below_sorted(s@, p.0, i as int);
            }
            s.insert(i, (p, v));
            proof {
                assert(sorted_by_place(s@)) by {
                    assert forall|a: int, b: int| 0 <= a < b < s@.len() implies s@[a].0.0 < s@[b].0.0 by {
                        if a < i && b > i {
                            assert(s@[b] == old(s)@[b - 1]);
                        }
                    };
                };
            }
            return;
        }
        i += 1;
    }
    proof {
        assert forall|j: int| 0 <= j < s@.len() implies s@[j].0 != p by {};
        lemma_count_below_sorted(s@, p.0, n as int);
    }
    s.push((p, v));
    proof {
        assert(s@ =~= old(s)@.insert(n as int, (p, v)));
    }
}

impl Arc {
    pub open spec fn wf(&self) -> bool {
        self@.wf()
    }

    /// Input arcs, in place order.
    pub fn inputs(&self) -> (r: &Vec<(PlaceId, ArcKind)>)
        ensures
            r@ == self@.inputs,
    {
        &self.inputs
    }

    /// Output arcs, in place order.
    pub fn output(&self) -> (r: &Vec<(PlaceId, Weight)>)
        ensures
            r@ == self@.output,
    {
        &self.output
    }

    /// Arcs with no entries.
    pub fn empty() -> (a: Self)
        ensures
            a@.inputs == Seq::<(PlaceId, ArcKind)>::empty(),
            a@.output == Seq::<(PlaceId, Weight)>::empty(),
            a.wf(),
    {
        Arc { inputs: Vec::new(), output: Vec::new() }
    }

    /// Arcs built from the given entries, taken in order; a later entry for the
    /// same place and direction replaces an earlier one.
    pub fn new(inputs: Vec<(PlaceId, ArcKind)>, output: Vec<(PlaceId, Weight)>) -> (a: Self)
        ensures
            a.wf(),
            a@.inputs == puts(Seq::empty(), inputs@),
            a@.output == puts(Seq::empty(), output@),
    {
        let mut a = Arc::empty();
        let mut i: usize = 0;
        while i < inputs.len()
            invariant
                a.wf(),
                i <= inputs@.len(),
                a@.inputs == puts(Seq::empty(), inputs@.take(i as int)),
                a@.output == Seq::<(PlaceId, Weight)>::empty(),
            decreases inputs@.len() - i,
        {
            let (p, k) = inputs[i];
            a.add_input_inplace(p, k);
            proof {
                assert(inputs@.take(i + 1).drop_last() =~= inputs@.take(i as int));
            }
            i += 1;
        }
        assert(inputs@.take(inputs@.len() as int) =~= inputs@);
        let mut j: usize = 0;
        while j < output.len()
            invariant
                a.wf(),
                j <= output@.len(),
                a@.inputs == puts(Seq::empty(), inputs@),
                a@.output == puts(Seq::empty(), output@.take(j as int)),
            decreases output@.len() - j,
        {
            let (p, w) = output[j];
            a.add_output_inplace(p, w);
            proof {
                assert(output@.take(j + 1).drop_last() =~= output@.take(j as int));
            }
            j += 1;
        }
        assert(output@.take(output@.len() as int) =~= output@);
        a
    }

    /// Adds (or replaces) the input arc from `place_id`, and hands back `self` for chaining.
    pub fn add_input(&mut self, place_id: PlaceId, kind: ArcKind) -> (r: &mut Self)
        requires
            old(self).wf(),
        ensures
            r.wf(),
            r@.inputs == place_insert(old(self)@.inputs, place_id, kind),
            r@.output == old(self)@.output,
            *final(self) == *final(r),
    {
        self.add_input_inplace(place_id, kind);
        self
    }

    /// Adds (or replaces) the output arc to `place_id`, and hands back `self` for chaining.
    pub fn add_output(&mut self, place_id: PlaceId, weight: Weight) -> (r: &mut Self)
        requires
            old(self).wf(),
        ensures
            r.wf(),
            r@.output == place_insert(old(self)@.output, place_id, weight),
            r@.inputs == old(self)@.inputs,
            *final(self) == *final(r),
    {
        self.add_output_inplace(place_id, weight);
        self
    }

    /// Adds (or replaces) the input arc from `place_id`.
    pub fn add_input_inplace(&mut self, place_id: PlaceId, kind: ArcKind)
        requires
            old(self).wf(),
        ensures
            final(self).wf(),
            final(self)@.inputs == place_insert(old(self)@.inputs, place_id, kind),
            final(self)@.output == old(self)@.output,
    {
        sorted_put(&mut self.inputs, place_id, kind);
    }

    /// Adds (or replaces) the output arc to `place_id`.
    pub fn add_output_inplace(&mut self, place_id: PlaceId, weight: Weight)
        requires
            old(self).wf(),
        ensures
            final(self).wf(),
            final(self)@.output == place_insert(old(self)@.output, place_id, weight),
            final(self)@.inputs == old(self)@.inputs,
    {
        sorted_put(&mut self.output, place_id, weight);
    }
}

/// Place-ordered entries obtained by putting each of `entries` into `start` in turn.
pub open spec fn puts<K>(start: Seq<(PlaceId, K)>, entries: Seq<(PlaceId, K)>) -> Seq<(PlaceId, K)>
    decreases entries.len(),
{
    if entries.len() == 0 {
        start
    } else {
        place_insert(puts(start, entries.drop_last()), entries.last().0, entries.last().1)
    }
}


/// The value the entries `s` hold for place `p`, if one does.
pub open spec fn entry_at<K>(s: Seq<(PlaceId, K)>, p: PlaceId) -> Option<K> {
    if exists|i: int| 0 <= i < s.len() && (#[trigger] s[i]).0 == p {
        Some(s[choose|i: int| 0 <= i < s.len() && (#[trigger] s[i]).0 == p].1)
    } else {
        None
    }
}

/// The entries `e` read as a map from place to value, a later entry for a
/// place replacing an earlier one.
pub open spec fn entry_map<K>(e: Seq<(PlaceId, K)>) -> Map<PlaceId, K>
    decreases e.len(),
{
    if e.len() == 0 {
        Map::empty()
    } else {
        entry_map(e.drop_last()).insert(e.last().0, e.last().1)
    }
}

/// No two entries of `s` are for the same place.
pub open spec fn unique_places<K>(s: Seq<(PlaceId, K)>) -> bool {
    forall|i: int, j: int| 0 <= i < j < s.len() ==> (#[trigger] s[i]).0 != (#[trigger] s[j]).0
}

/// Putting an entry for `p` makes `p` hold `v` and leaves the other places as they were.
proof fn lemma_place_insert_reads<K>(s: Seq<(PlaceId, K)>, p: PlaceId, v: K)
    requires
        unique_places(s),
    ensures
        unique_places(place_insert(s, p, v)),
        entry_at(place_insert(s, p, v), p) == Some(v),
        forall|q: PlaceId| q != p ==> #[trigger] entry_at(place_insert(s, p, v), q) == entry_at(s, q),
{
    let r = place_insert(s, p, v);
    if exists|j: int| 0 <= j < s.len() && s[j].0 == p {
        let j = choose|j: int| 0 <= j < s.len() && s[j].0 == p;
        assert(r == s.update(j, (p, v)));
        assert forall|a: int, b: int| 0 <= a < b < r.len() implies (#[trigger] r[a]).0 != (#[trigger] r[b]).0 by {
            if a != j && b != j {
                assert(r[a] == s[a] && r[b] == s[b]);
            } else if a == j {
                assert(r[b] == s[b]);
                assert(s[j].0 != s[b].0);
            } else {
                assert(r[a] == s[a]);
                assert(s[a].0 != s[j].0);
            }
        };
        assert(r[j].0 == p);
        let w = choose|i: int| 0 <= i < r.len() && (#[trigger] r[i]).0 == p;
        assert(w == j);
        assert forall|q: PlaceId| q != p implies #[trigger] entry_at(r, q) == entry_at(s, q) by {
            if exists|i: int| 0 <= i < s.len() && (#[trigger] s[i]).0 == q {
                let i = choose|i: int| 0 <= i < s.len() && (#[trigger] s[i]).0 == q;
                assert(r[i] == s[i]);
                let i2 = choose|i: int| 0 <= i < r.len() && (#[trigger] r[i]).0 == q;
                assert(r[i2] == s[i2]);
            }
            if exists|i: int| 0 <= i < r.len() && (#[trigger] r[i]).0 == q {
                let i = choose|i: int| 0 <= i < r.len() && (#[trigger] r[i]).0 == q;
                assert(r[i] == s[i]);
            }
        };
    } else {
        let c = count_below(s, p.0);
        lemma_count_below_range(s, p.0);
        assert(r == s.insert(c, (p, v)));
        assert forall|a: int, b: int| 0 <= a < b < r.len() implies (#[trigger] r[a]).0 != (#[trigger] r[b]).0 by {
            if a < c && b < c {
                assert(r[a] == s[a] && r[b] == s[b]);
            } else if a < c && b == c {
                assert(r[a] == s[a]);
            } else if a < c {
                assert(r[a] == s[a] && r[b] == s[b - 1]);
            } else if a == c {
                assert(r[b] == s[b - 1]);
            } else {
                assert(r[a] == s[a - 1] && r[b] == s[b - 1]);
            }
        };
        assert(r[c].0 == p);
        let w = choose|i: int| 0 <= i < r.len() && (#[trigger] r[i]).0 == p;
        assert(w == c);
        assert forall|q: PlaceId| q != p implies #[trigger] entry_at(r, q) == entry_at(s, q) by {
            if exists|i: int| 0 <= i < s.len() && (#[trigger] s[i]).0 == q {
                let i = choose|i: int| 0 <= i < s.len() && (#[trigger] s[i]).0 == q;
                if i < c {
                    assert(r[i] == s[i]);
                } else {
                    assert(r[i + 1] == s[i]);
                }
                let i2 = choose|i: int| 0 <= i < r.len() && (#[trigger] r[i]).0 == q;
                if i2 < c {
                    assert(r[i2] == s[i2]);
                } else {
                    assert(i2 != c);
                    assert(r[i2] == s[i2 - 1]);
                }
            }
            if exists|i: int| 0 <= i < r.len() && (#[trigger] r[i]).0 == q {
                let i = choose|i: int| 0 <= i < r.len() && (#[trigger] r[i]).0 == q;
                if i < c {
                    assert(r[i] == s[i]);
                } else {
                    assert(i != c);
                    assert(r[i] == s[i - 1]);
                }
            }
        };
    }
}

/// The arcs built by [`Arc::new`] from a list of entries read back, place by
/// place, as that list read as a map: each place holds the last value given
/// for it, and no other place holds one.
pub proof fn lemma_puts_reads_back<K>(e: Seq<(PlaceId, K)>, p: PlaceId)
    ensures
        unique_places(puts(Seq::<(PlaceId, K)>::empty(), e)),
        entry_at(puts(Seq::<(PlaceId, K)>::empty(), e), p) == (if entry_map(e).dom().contains(p) {
            Some(entry_map(e)[p])
        } else {
            None::<K>
        }),
    decreases e.len(),
{
    if e.len() > 0 {
        let d = e.drop_last();
        lemma_puts_reads_back(d, p);
        lemma_place_insert_reads(puts(Seq::<(PlaceId, K)>::empty(), d), e.last().0, e.last().1);
    }
}

/// The entry read for a place in a sequence without repeated places: the last
/// entry when it is for that place, and otherwise what the rest holds.
proof fn lemma_entry_at_last<K>(s: Seq<(PlaceId, K)>, q: PlaceId)
    requires
        unique_places(s),
        s.len() > 0,
    ensures
        unique_places(s.drop_last()),
        entry_at(s, q) == if s.last().0 == q { Some(s.last().1) } else { entry_at(s.drop_last(), q) },
{
    let d = s.drop_last();
    let n = s.len() - 1;
    assert forall|i: int, j: int| 0 <= i < j < d.len() implies (#[trigger] d[i]).0 != (#[trigger] d[j]).0 by {
        assert(d[i] == s[i] && d[j] == s[j]);
    };
    if s.last().0 == q {
        assert(s[n].0 == q);
        let c = choose|i: int| 0 <= i < s.len() && (#[trigger] s[i]).0 == q;
        if c != n {
            assert(s[c].0 != s[n].0);
        }
    } else {
        if exists|i: int| 0 <= i < s.len() && (#[trigger] s[i]).0 == q {
            let c = choose|i: int| 0 <= i < s.len() && (#[trigger] s[i]).0 == q;
            assert(c != n);
            assert(d[c] == s[c]);
            let c2 = choose|i: int| 0 <= i < d.len() && (#[trigger] d[i]).0 == q;
            assert(d[c2] == s[c2]);
            if c < c2 {
                assert(s[c].0 != s[c2].0);
            } else if c2 < c {
                assert(s[c2].0 != s[c].0);
            }
        }
        if exists|i: int| 0 <= i < d.len() && (#[trigger] d[i]).0 == q {
            let c = choose|i: int| 0 <= i < d.len() && (#[trigger] d[i]).0 == q;
            assert(s[c] == d[c]);
        }
    }
}

/// A sequence without repeated places, read as a map, holds what it lists.
proof fn lemma_entry_map_unique<K>(e: Seq<(PlaceId, K)>, q: PlaceId)
    requires
        unique_places(e),
    ensures
        entry_at(e, q) == (if entry_map(e).dom().contains(q) { Some(entry_map(e)[q]) } else { None::<K> }),
    decreases e.len(),
{
    if e.len() > 0 {
        lemma_entry_at_last(e, q);
        lemma_entry_map_unique(e.drop_last(), q);
    }
}

/// Building arcs from entries without repeated places keeps each entry: every
/// place reads as it did in the entries.
pub proof fn lemma_puts_same_entries<K>(e: Seq<(PlaceId, K)>, q: PlaceId)
    requires
        unique_places(e),
    ensures
        unique_places(puts(Seq::<(PlaceId, K)>::empty(), e)),
        entry_at(puts(Seq::<(PlaceId, K)>::empty(), e), q) == entry_at(e, q),
{
    lemma_puts_reads_back(e, q);
    lemma_entry_map_unique(e, q);
}

/// In a sequence without repeated places, an entry is listed exactly when it
/// is the one read for its place.
pub proof fn lemma_unique_lists<K>(s: Seq<(PlaceId, K)>, q: PlaceId, v: K)
    requires
        unique_places(s),
    ensures
        s.contains((q, v)) <==> entry_at(s, q) == Some(v),
{
    if s.contains((q, v)) {
        let i = choose|i: int| 0 <= i < s.len() && s[i] == (q, v);
        assert(s[i].0 == q);
        let c = choose|c: int| 0 <= c < s.len() && (#[trigger] s[c]).0 == q;
        if c < i {
            assert(s[c].0 != s[i].0);
        } else if i < c {
            assert(s[i].0 != s[c].0);
        }
    }
    if entry_at(s, q) == Some(v) {
        let c = choose|c: int| 0 <= c < s.len() && (#[trigger] s[c]).0 == q;
        assert(s[c] == (q, v));
    }
}

/// What input entries without repeated places remove from place `p`: what
/// the entry for `p` removes, if there is one.
pub proof fn lemma_consumed_entry(s: Seq<(PlaceId, ArcKind)>, p: usize)
    requires
        unique_places(s),
    ensures
        consumed(s, p as int) == match entry_at(s, PlaceId(p)) {
            Some(k) => kind_consumes(k),
            None => 0nat,
        },
    decreases s.len(),
{
    if s.len() > 0 {
        lemma_entry_at_last(s, PlaceId(p));
        lemma_consumed_entry(s.drop_last(), p);
    }
}

/// What output entries without repeated places add to place `p`: the weight
/// of the entry for `p`, if there is one.
pub proof fn lemma_produced_entry(s: Seq<(PlaceId, Weight)>, p: usize)
    requires
        unique_places(s),
    ensures
        produced(s, p as int) == match entry_at(s, PlaceId(p)) {
            Some(w) => w.0 as nat,
            None => 0nat,
        },
    decreases s.len(),
{
    if s.len() > 0 {
        lemma_entry_at_last(s, PlaceId(p));
        lemma_produced_entry(s.drop_last(), p);
    }
}

impl Default for Arc {
    fn default() -> (a: Self)
        ensures
            a@.inputs == Seq::<(PlaceId, ArcKind)>::empty(),
            a@.output == Seq::<(PlaceId, Weight)>::empty(),
            a.wf(),
    {
        Arc::empty()
    }
}

/// Adding tokens never disables a transition without inhibitor arcs, and a
/// transition without input arcs is enabled in every marking.
pub proof fn lemma_enabled_monotone(a: ArcsView, m1: Seq<usize>, m2: Seq<usize>)
    requires
        m1.len() == m2.len(),
        places_below(a.inputs, m1.len()),
        forall|i: int| 0 <= i < m1.len() ==> m1[i] <= #[trigger] m2[i],
        forall|j: int| 0 <= j < a.inputs.len() ==> #[trigger] a.inputs[j].1 != ArcKind::Inhibit,
    ensures
        a.enabled(m1) ==> a.enabled(m2),
        a.inputs.len() == 0 ==> a.enabled(m1),
{
    if a.enabled(m1) {
        assert forall|j: int| #![trigger a.inputs[j]] 0 <= j < a.inputs.len()
            implies kind_allows(a.inputs[j].1, m2[a.inputs[j].0.0 as int]) by {
            let p = a.inputs[j].0.0 as int;
            assert(m1[p] <= m2[p]);
            assert(kind_allows(a.inputs[j].1, m1[p]));
        };
    }
}

pub proof fn lemma_consumed_absent(s: Seq<(PlaceId, ArcKind)>, p: int)
    requires
        forall|i: int| 0 <= i < s.len() ==> s[i].0.0 != p,
    ensures
        consumed(s, p) == 0,
    decreases s.len(),
{
    if s.len() > 0 {
        lemma_consumed_absent(s.drop_last(), p);
    }
}

pub proof fn lemma_produced_prefix(s: Seq<(PlaceId, Weight)>, k: int, p: int)
    requires
        0 <= k <= s.len(),
    ensures
        produced(s.take(k), p) <= produced(s, p),
    decreases s.len(),
{
    if k == s.len() {
        assert(s.take(k) =~= s);
    } else {
        lemma_produced_prefix(s.drop_last(), k, p);
        assert(s.drop_last().take(k) =~= s.take(k));
    }
}

/// One transition: its index in the net and its arcs.
pub struct Transition {
    pub(crate) id: TransitionId,
    pub(crate) arcs: Arc,
}

impl View for Transition {
    type V = ArcsView;

    closed spec fn view(&self) -> ArcsView {
        self.arcs@
    }
}

impl Transition {
    /// The index this transition was given in its net.
    pub closed spec fn id_spec(&self) -> TransitionId {
        self.id
    }

    /// A transition with no arcs.
    pub fn new() -> (t: Self)
        ensures
            t@.inputs == Seq::<(PlaceId, ArcKind)>::empty(),
            t@.output == Seq::<(PlaceId, Weight)>::empty(),
            t@.wf(),
            t.id_spec() == TransitionId(0),
    {
        Transition { id: TransitionId(0), arcs: Arc::empty() }
    }

    /// This transition's arcs.
    pub(crate) fn arcs(&self) -> (r: &Arc)
        ensures
            r@ == self@,
    {
        &self.arcs
    }

    /// A transition with the given arcs.
    pub fn from_arcs(arcs: Arc) -> (t: Self)
        ensures
            t@ == arcs@,
            t.id_spec() == TransitionId(0),
    {
        Transition { id: TransitionId(0), arcs }
    }

    /// Whether every input arc is satisfied by `marking`: a consume arc of
    /// weight w needs at least w tokens, a peek arc at least one, an inhibitor
    /// arc none.
    pub fn is_enabled(&self, marking: &Marking) -> (b: bool)
        requires
            places_below(self@.inputs, marking@.len()),
        ensures
            b == self@.enabled(marking@),
    {
        let inputs = &self.arcs.inputs;
        let n = inputs.len();
        let mut j: usize = 0;
        while j < n
            invariant
                n == inputs@.len(),
                inputs@ == self@.inputs,
                places_below(self@.inputs, marking@.len()),
                j <= n,
                forall|i: int| #![trigger inputs@[i]]
                    0 <= i < j ==> kind_allows(inputs@[i].1, marking@[inputs@[i].0.0 as int]),
            decreases n - j,
        {
            let (id, kind) = inputs[j];
            let tokens = marking.get(id.0);
            let ok = match kind {
                ArcKind::Consume(w) => tokens >= w.0,
                ArcKind::Peek => tokens > 0,
                ArcKind::Inhibit => tokens == 0,
            };
            if !ok {
                return false;
            }
            j += 1;
        }
        true
    }

    /// Whether the transition has no input place.
    pub fn is_source(&self) -> (b: bool)
        ensures
            b == (self@.inputs.len() == 0),
    {
        self.arcs.inputs.len() == 0
    }

    /// Whether the transition has no output place.
    pub fn is_sink(&self) -> (b: bool)
        ensures
            b == (self@.output.len() == 0),
    {
        self.arcs.output.len() == 0
    }

    /// Fires the transition in `marking` if it is enabled there: consume arcs
    /// remove their weight, output arcs add theirs, peek and inhibitor arcs
    /// change nothing. Returns whether it fired; when it did not, `marking` is
    /// unchanged.
    pub fn fire(&self, marking: &mut Marking) -> (b: bool)
        requires
            self@.wf(),
            self@.within(old(marking)@.len()),
            self@.enabled(old(marking)@) ==> self@.fits(old(marking)@),
        ensures
            b == self@.enabled(old(marking)@),
            b ==> final(marking)@ == self@.fire(old(marking)@),
            !b ==> final(marking)@ == old(marking)@,
    {
        if !self.is_enabled(marking) {
            return false;
        }
        self.consume_tokens(marking);
        proof {
            assert forall|p: int| #![trigger marking@[p]]
                0 <= p < marking@.len() implies marking@[p] + produced(self@.output, p) <= usize::MAX by {
                assert(self@.fired_count(old(marking)@, p) <= usize::MAX);
            };
        }
        self.forward_tokens(marking);
        proof {
            assert(marking@ =~= self@.fire(old(marking)@));
        }
        true
    }

    /// Removes the weight of every consume arc from its place.
    fn consume_tokens(&self, marking: &mut Marking)
        requires
            self@.wf(),
            self@.within(old(marking)@.len()),
            self@.enabled(old(marking)@),
        ensures
            final(marking)@.len() == old(marking)@.len(),
            forall|p: int| #![trigger final(marking)@[p]]
                0 <= p < old(marking)@.len() ==> final(marking)@[p] == old(marking)@[p] - consumed(self@.inputs, p),
    {
        let inputs = &self.arcs.inputs;
        let n = inputs.len();
        let mut j: usize = 0;
        while j < n
            invariant
                n == inputs@.len(),
                inputs@ == self@.inputs,
                self@.wf(),
                self@.within(old(marking)@.len()),
                self@.enabled(old(marking)@),
                marking@.len() == old(marking)@.len(),
                j <= n,
                forall|p: int| #![trigger marking@[p]]
                    0 <= p < marking@.len() ==> marking@[p] == old(marking)@[p] - consumed(inputs@.take(j as int), p),
            decreases n - j,
        {
            let (id, kind) = inputs[j];
            proof {
                assert(inputs@.take(j + 1).drop_last() =~= inputs@.take(j as int));
                assert forall|i: int| 0 <= i < inputs@.take(j as int).len()
                    implies inputs@.take(j as int)[i].0.0 != id.0 by {
                    assert(inputs@[i].0.0 < inputs@[j as int].0.0);
                };
                lemma_consumed_absent(inputs@.take(j as int), id.0 as int);
                assert(kind_allows(inputs@[j as int].1, old(marking)@[inputs@[j as int].0.0 as int]));
            }
            if let ArcKind::Consume(w) = kind {
                let cur = marking.get(id.0);
                marking.set(id.0, cur - w.0);
            }
            proof {
                assert forall|p: int| #![trigger marking@[p]]
                    0 <= p < marking@.len() implies marking@[p] == old(marking)@[p] - consumed(inputs@.take(j + 1), p) by {
                };
            }
            j += 1;
        }
        proof {
            assert(inputs@.take(n as int) =~= inputs@);
        }
    }

    /// Adds the weight of every output arc to its place.
    fn forward_tokens(&self, marking: &mut Marking)
        requires
            self@.wf(),
            self@.within(old(marking)@.len()),
            forall|p: int| #![trigger old(marking)@[p]]
                0 <= p < old(marking)@.len() ==> old(marking)@[p] + produced(self@.output, p) <= usize::MAX,
        ensures
            final(marking)@.len() == old(marking)@.len(),
            forall|p: int| #![trigger final(marking)@[p]]
                0 <= p < old(marking)@.len() ==> final(marking)@[p] == old(marking)@[p] + produced(self@.output, p),
    {
        let output = &self.arcs.output;
        let n = output.len();
        let mut j: usize = 0;
        while j < n
            invariant
                n == output@.len(),
                output@ == self@.output,
                self@.wf(),
                self@.within(old(marking)@.len()),
                forall|p: int| #![trigger old(marking)@[p]]
                    0 <= p < old(marking)@.len() ==> old(marking)@[p] + produced(self@.output, p) <= usize::MAX,
                marking@.len() == old(marking)@.len(),
                j <= n,
                forall|p: int| #![trigger marking@[p]]
                    0 <= p < marking@.len() ==> marking@[p] == old(marking)@[p] + produced(output@.take(j as int), p),
            decreases n - j,
        {
            let (id, w) = output[j];
            proof {
                assert(output@.take(j + 1).drop_last() =~= output@.take(j as int));
                lemma_produced_prefix(output@, j + 1, id.0 as int);
                assert(old(marking)@[id.0 as int] + produced(output@, id.0 as int) <= usize::MAX);
            }
            let cur = marking.get(id.0);
            marking.set(id.0, cur + w.0);
            proof {
                assert forall|p: int| #![trigger marking@[p]]
                    0 <= p < marking@.len() implies marking@[p] == old(marking)@[p] + produced(output@.take(j + 1), p) by {
                };
            }
            j += 1;
        }
        proof {
            assert(output@.take(n as int) =~= output@);
        }
    }
}

} // verus!

verus! {

/// Mathematical model of a [`PetriNet`]: how many places it has, and the arcs of
/// each transition in index order.
pub struct NetView {
    pub places: nat,
    pub transitions: Seq<ArcsView>,
}

impl NetView {
    /// Every transition keeps its arcs in place order.
    pub open spec fn wf(self) -> bool {
        forall|t: int| 0 <= t < self.transitions.len() ==> #[trigger] self.transitions[t].wf()
    }

    /// Every arc touches a place below `n`.
    pub open spec fn within(self, n: nat) -> bool {
        forall|t: int| 0 <= t < self.transitions.len() ==> #[trigger] self.transitions[t].within(n)
    }

    /// Transition `t` exists and is enabled in `m`.
    pub open spec fn can_fire(self, t: int, m: Seq<usize>) -> bool {
        0 <= t < self.transitions.len() && self.transitions[t].enabled(m)
    }

    /// Indices of the transitions among the first `k` that are enabled in `m`, in order.
    pub open spec fn enabled_upto(self, m: Seq<usize>, k: nat) -> Seq<TransitionId>
        decreases k,
    {
        if k == 0 {
            Seq::empty()
        } else {
            let prev = self.enabled_upto(m, (k - 1) as nat);
            if self.transitions[k - 1].enabled(m) {
                prev.push(TransitionId((k - 1) as usize))
            } else {
                prev
            }
        }
    }

    /// Indices of all transitions enabled in `m`, in order.
    pub open spec fn enabled_ids(self, m: Seq<usize>) -> Seq<TransitionId> {
        self.enabled_upto(m, self.transitions.len())
    }

    /// Every transition enabled in `m`, in index order, paired with the marking its firing gives.
    pub open spec fn successors(self, m: Seq<usize>) -> Seq<(TransitionId, Seq<usize>)> {
        self.enabled_ids(m).map_values(|t: TransitionId| (t, self.transitions[t.0 as int].fire(m)))
    }

    /// The marking reached by firing `ts` in order from `m`, if each is enabled in turn.
    pub open spec fn run(self, m: Seq<usize>, ts: Seq<TransitionId>) -> Option<Seq<usize>>
        decreases ts.len(),
    {
        if ts.len() == 0 {
            Some(m)
        } else if self.can_fire(ts[0].0 as int, m) {
            self.run(self.transitions[ts[0].0 as int].fire(m), ts.drop_first())
        } else {
            None
        }
    }

    /// `m` is reachable from `m0` by some firing sequence.
    pub open spec fn reachable(self, m0: Seq<usize>, m: Seq<usize>) -> bool {
        exists|ts: Seq<TransitionId>| #[trigger] self.run(m0, ts) == Some(m)
    }

    /// All markings reachable from `m0`.
    pub open spec fn reachable_set(self, m0: Seq<usize>) -> Set<Seq<usize>> {
        Set::new(|m: Seq<usize>| self.reachable(m0, m))
    }

    /// Firing never exceeds `usize` in any marking reachable from `m0`.
    pub open spec fn fits_from(self, m0: Seq<usize>) -> bool {
        forall|m: Seq<usize>, t: int|
            self.reachable(m0, m) && #[trigger] self.can_fire(t, m) ==> #[trigger] self.transitions[t].fits(m)
    }
}

/// Firing keeps the number of places.
pub proof fn lemma_run_len(net: NetView, m: Seq<usize>, ts: Seq<TransitionId>)
    requires
        net.run(m, ts) is Some,
    ensures
        net.run(m, ts).unwrap().len() == m.len(),
    decreases ts.len(),
{
    if ts.len() > 0 {
        lemma_run_len(net, net.transitions[ts[0].0 as int].fire(m), ts.drop_first());
    }
}

/// Running `ts` and then `t` is running `ts.push(t)`.
pub proof fn lemma_run_push(net: NetView, m: Seq<usize>, ts: Seq<TransitionId>, t: TransitionId)
    requires
        net.run(m, ts) is Some,
        net.can_fire(t.0 as int, net.run(m, ts).unwrap()),
    ensures
        net.run(m, ts.push(t)) == Some(net.transitions[t.0 as int].fire(net.run(m, ts).unwrap())),
    decreases ts.len(),
{
    if ts.len() == 0 {
        assert(ts.push(t)[0] == t);
        assert(ts.push(t).drop_first() =~= Seq::<TransitionId>::empty());
        let f = net.transitions[t.0 as int].fire(m);
        assert(net.run(f, Seq::<TransitionId>::empty()) == Some(f));
    } else {
        assert(ts.push(t)[0] == ts[0]);
        assert(ts.push(t).drop_first() =~= ts.drop_first().push(t));
        lemma_run_push(net, net.transitions[ts[0].0 as int].fire(m), ts.drop_first(), t);
    }
}

/// Firing an enabled transition in a reachable marking gives a reachable marking.
pub proof fn lemma_reachable_step(net: NetView, m0: Seq<usize>, m: Seq<usize>, t: TransitionId)
    requires
        net.reachable(m0, m),
        net.can_fire(t.0 as int, m),
    ensures
        net.reachable(m0, net.transitions[t.0 as int].fire(m)),
{
    let ts = choose|ts: Seq<TransitionId>| #[trigger] net.run(m0, ts) == Some(m);
    lemma_run_push(net, m0, ts, t);
    assert(net.run(m0, ts.push(t)) == Some(net.transitions[t.0 as int].fire(m)));
}

/// The initial marking is reachable.
pub proof fn lemma_reachable_self(net: NetView, m0: Seq<usize>)
    ensures
        net.reachable(m0, m0),
{
    assert(net.run(m0, Seq::empty()) == Some(m0));
}

/// A set containing `m` and closed under firing contains every marking reachable from `m`.
pub proof fn lemma_closed_contains_run(net: NetView, s: Set<Seq<usize>>, m: Seq<usize>, ts: Seq<TransitionId>)
    requires
        s.contains(m),
        forall|x: Seq<usize>, t: int| s.contains(x) && #[trigger] net.can_fire(t, x)
            ==> s.contains(#[trigger] net.transitions[t].fire(x)),
        net.run(m, ts) is Some,
    ensures
        s.contains(net.run(m, ts).unwrap()),
    decreases ts.len(),
{
    if ts.len() > 0 {
        let t = ts[0].0 as int;
        assert(s.contains(net.transitions[t].fire(m)));
        lemma_closed_contains_run(net, s, net.transitions[t].fire(m), ts.drop_first());
    }
}

/// Membership in the enabled list: exactly the enabled transitions below `k`, increasing.
pub proof fn lemma_enabled_upto(net: NetView, m: Seq<usize>, k: nat)
    requires
        k <= net.transitions.len(),
        net.transitions.len() <= usize::MAX,
    ensures
        forall|i: int| 0 <= i < net.enabled_upto(m, k).len() ==> {
            let t = #[trigger] net.enabled_upto(m, k)[i];
            t.0 < k && net.can_fire(t.0 as int, m)
        },
        forall|t: int| 0 <= t < k && net.can_fire(t, m) ==> net.enabled_upto(m, k).contains(TransitionId(t as usize)),
        forall|i: int, j: int| 0 <= i < j < net.enabled_upto(m, k).len()
            ==> net.enabled_upto(m, k)[i].0 < net.enabled_upto(m, k)[j].0,
    decreases k,
{
    if k > 0 {
        lemma_enabled_upto(net, m, (k - 1) as nat);
        let prev = net.enabled_upto(m, (k - 1) as nat);
        let cur = net.enabled_upto(m, k);
        if net.transitions[k - 1].enabled(m) {
            assert(cur == prev.push(TransitionId((k - 1) as usize)));
            assert forall|i: int| 0 <= i < cur.len() implies {
                let t = #[trigger] cur[i];
                t.0 < k && net.can_fire(t.0 as int, m)
            } by {
                if i < prev.len() {
                    assert(cur[i] == prev[i]);
                }
            };
            assert forall|t: int| 0 <= t < k && net.can_fire(t, m)
                implies cur.contains(TransitionId(t as usize)) by {
                if t < k - 1 {
                    let i = choose|i: int| 0 <= i < prev.len() && prev[i] == TransitionId(t as usize);
                    assert(cur[i] == TransitionId(t as usize));
                } else {
                    assert(cur[prev.len() as int] == TransitionId(t as usize));
                }
            };
            assert forall|i: int, j: int| 0 <= i < j < cur.len() implies cur[i].0 < cur[j].0 by {
                if j < prev.len() {
                    assert(cur[i] == prev[i] && cur[j] == prev[j]);
                } else {
                    assert(cur[i] == prev[i]);
                    assert(prev[i].0 < k - 1);
                }
            };
        } else {
            assert(cur == prev);
        }
    }
}

/// A net of places and transitions. Places have no capacity bound.
pub struct PetriNet {
    pub(crate) place_count: usize,
    pub(crate) transitions: Vec<Transition>,
}

/// A net whose places all share a capacity bound (reserved for capacity-bounded nets).
pub struct PetriNetFixed {
    pub(crate) place_count: usize,
    pub(crate) transitions: Vec<Transition>,
}

impl View for PetriNet {
    type V = NetView;

    closed spec fn view(&self) -> NetView {
        NetView {
            places: self.place_count as nat,
            transitions: self.transitions@.map_values(|t: Transition| t@),
        }
    }
}

impl Default for PetriNet {
    fn default() -> (n: Self)
        ensures
            n@.places == 0,
            n@.transitions == Seq::<ArcsView>::empty(),
            n.wf(),
    {
        let n = PetriNet { place_count: 0, transitions: Vec::new() };
        proof {
            assert(n@.transitions =~= Seq::<ArcsView>::empty());
        }
        n
    }
}

impl PetriNet {
    /// Every transition knows its own index and keeps its arcs in place order.
    pub closed spec fn wf(&self) -> bool {
        &&& forall|i: int| 0 <= i < self.transitions@.len() ==> (#[trigger] self.transitions@[i]).id.0 == i
        &&& self@.wf()
        &&& self@.transitions.len() <= usize::MAX
    }

    /// What well-formedness says of the model.
    pub proof fn lemma_wf(&self)
        requires
            self.wf(),
        ensures
            self@.wf(),
            self@.transitions.len() <= usize::MAX,
    {
    }

    /// Adds a place with a fresh index.
    pub fn add_place(&mut self) -> (id: PlaceId)
        requires
            old(self).wf(),
            old(self)@.places < usize::MAX,
        ensures
            final(self).wf(),
            id.0 == old(self)@.places,
            final(self)@.places == old(self)@.places + 1,
            final(self)@.transitions == old(self)@.transitions,
    {
        let id = PlaceId(self.place_count);
        self.place_count += 1;
        proof {
            assert(self@.transitions == old(self)@.transitions);
        }
        id
    }

    /// Adds a transition with the given arcs and a fresh index.
    pub fn add_transition(&mut self, arcs: Arc) -> (id: TransitionId)
        requires
            old(self).wf(),
            arcs.wf(),
            old(self)@.transitions.len() < usize::MAX,
        ensures
            final(self).wf(),
            id.0 == old(self)@.transitions.len(),
            final(self)@.places == old(self)@.places,
            final(self)@.transitions == old(self)@.transitions.push(arcs@),
    {
        let id = TransitionId(self.transitions.len());
        let ghost a = arcs@;
        self.transitions.push(Transition { id, arcs });
        proof {
            assert(self@.transitions =~= old(self)@.transitions.push(a));
        }
        id
    }

    /// Number of transitions.
    pub fn transition_count(&self) -> (n: usize)
        ensures
            n == self@.transitions.len(),
    {
        self.transitions.len()
    }

    /// Number of places.
    pub fn place_count(&self) -> (n: usize)
        ensures
            n == self@.places,
    {
        self.place_count
    }

    /// The transition with index `id`.
    pub fn transition(&self, id: TransitionId) -> (t: &Transition)
        requires
            id.0 < self@.transitions.len(),
        ensures
            t@ == self@.transitions[id.0 as int],
            self.wf() ==> t.id_spec() == id,
    {
        &self.transitions[id.0]
    }

    /// Indices of every transition, in order.
    pub fn transition_ids(&self) -> (ids: Vec<TransitionId>)
        ensures
            ids@ == Seq::new(self@.transitions.len(), |i: int| TransitionId(i as usize)),
    {
        let n = self.transitions.len();
        let mut ids: Vec<TransitionId> = Vec::new();
        let mut i: usize = 0;
        while i < n
            invariant
                n == self@.transitions.len(),
                i <= n,
                ids@ == Seq::new(i as nat, |j: int| TransitionId(j as usize)),
            decreases n - i,
        {
            ids.push(TransitionId(i));
            i += 1;
            proof {
                assert(ids@ =~= Seq::new(i as nat, |j: int| TransitionId(j as usize)));
            }
        }
        ids
    }

    /// Indices of every place, in order.
    pub fn place_ids(&self) -> (ids: Vec<PlaceId>)
        ensures
            ids@ == Seq::new(self@.places, |i: int| PlaceId(i as usize)),
    {
        let n = self.place_count;
        let mut ids: Vec<PlaceId> = Vec::new();
        let mut i: usize = 0;
        while i < n
            invariant
                n == self@.places,
                i <= n,
                ids@ == Seq::new(i as nat, |j: int| PlaceId(j as usize)),
            decreases n - i,
        {
            ids.push(PlaceId(i));
            i += 1;
            proof {
                assert(ids@ =~= Seq::new(i as nat, |j: int| PlaceId(j as usize)));
            }
        }
        ids
    }

    /// The marking holding `tokens[i]` tokens in place `i`; there must be one
    /// count per place.
    pub fn initial_marking(&self, tokens: Vec<usize>) -> (m: Marking)
        requires
            tokens@.len() == self@.places,
        ensures
            m@ == tokens@,
    {
        Marking::new(tokens)
    }

    /// Indices of the transitions enabled in `marking`, in order.
    pub fn enabled_transitions(&self, marking: &Marking) -> (ids: Vec<TransitionId>)
        requires
            self@.within(marking@.len()),
        ensures
            ids@ == self@.enabled_ids(marking@),
    {
        let n = self.transitions.len();
        let mut ids: Vec<TransitionId> = Vec::new();
        let mut i: usize = 0;
        while i < n
            invariant
                n == self@.transitions.len(),
                self@.within(marking@.len()),
                i <= n,
                ids@ == self@.enabled_upto(marking@, i as nat),
            decreases n - i,
        {
            proof {
                assert(self.transitions@[i as int]@ == self@.transitions[i as int]);
                assert(self@.transitions[i as int].within(marking@.len()));
            }
            if self.transitions[i].is_enabled(marking) {
                ids.push(TransitionId(i));
            }
            i += 1;
        }
        ids
    }
}

impl PetriNet {
    /// The reachability graph from `initial_marking`: every reachable marking,
    /// each with the transitions enabled in it (in index order) and the marking
    /// each of them leads to. Only defined when finitely many markings are
    /// reachable (on an unbounded net the exploration never ends) and no count
    /// exceeds `usize`.
    pub fn reachable_markings(&self, initial_marking: &Marking) -> (g: Graph<Marking>)
        requires
            self.wf(),
            self@.within(initial_marking@.len()),
            self@.reachable_set(initial_marking@).finite(),
            self@.fits_from(initial_marking@),
        ensures
            g.wf(),
            g@.nodes.to_set() == self@.reachable_set(initial_marking@),
            forall|i: int| 0 <= i < g@.nodes.len() ==> #[trigger] g@.edges[i] == self@.successors(g@.nodes[i]),
    {
        let ghost net = self@;
        let ghost m0 = initial_marking@;
        let ghost r = net.reachable_set(m0);
        let mut visited: Graph<Marking> = Graph::new();
        let mut stack: Vec<Marking> = Vec::new();
        stack.push(initial_marking.duplicate());
        proof {
            lemma_reachable_self(net, m0);
            assert(views(stack@)[0] == m0);
        }
        while stack.len() > 0
            invariant
                self.wf(),
                net == self@,
                net.within(m0.len()),
                r == net.reachable_set(m0),
                r.finite(),
                net.fits_from(m0),
                visited.wf(),
                forall|i: int| 0 <= i < visited@.nodes.len() ==> #[trigger] net.reachable(m0, visited@.nodes[i]),
                forall|i: int| 0 <= i < visited@.nodes.len() ==> #[trigger] visited@.edges[i] == net.successors(visited@.nodes[i]),
                forall|j: int| 0 <= j < stack@.len() ==> #[trigger] net.reachable(m0, stack@[j]@),
                forall|j: int| 0 <= j < stack@.len() ==> (#[trigger] stack@[j]@).len() == m0.len(),
                visited@.nodes.contains(m0) || views(stack@).contains(m0),
                forall|i: int, k: int| 0 <= i < visited@.nodes.len() && 0 <= k < visited@.edges[i].len()
                    ==> visited@.nodes.contains(#[trigger] visited@.edges[i][k].1) || views(stack@).contains(visited@.edges[i][k].1),
                visited@.nodes.len() <= r.len(),
            decreases r.len() - visited@.nodes.len(), stack@.len(),
        {
            let ghost old_stack = stack@;
            let ghost old_visited = visited@;
            let current = stack.pop().unwrap();
            proof {
                assert(old_stack == stack@.push(current));
                assert forall|x: Seq<usize>| views(old_stack).contains(x) && x != current@
                    implies views(stack@).contains(x) by {
                    let j = choose|j: int| 0 <= j < views(old_stack).len() && views(old_stack)[j] == x;
                    assert(views(stack@)[j] == x);
                };
                assert(old_stack[old_stack.len() - 1] == current);
                assert(net.reachable(m0, current@));
            }
            if visited.contains_key(&current) {
                continue;
            }
            let enabled = self.enabled_transitions(&current);
            proof {
                lemma_enabled_upto(net, current@, net.transitions.len());
            }
            let mut edges: Vec<(TransitionId, Marking)> = Vec::new();
            let ghost base = stack@;
            let mut j: usize = 0;
            while j < enabled.len()
                invariant
                    self.wf(),
                    net == self@,
                    net.within(m0.len()),
                    net.fits_from(m0),
                    net.reachable(m0, current@),
                    current@.len() == m0.len(),
                    enabled@ == net.enabled_ids(current@),
                    forall|i: int| 0 <= i < enabled@.len() ==> net.can_fire((#[trigger] enabled@[i]).0 as int, current@),
                    j <= enabled@.len(),
                    edges_view(edges@) == net.successors(current@).take(j as int),
                    stack@.len() == base.len() + j,
                    forall|i: int| 0 <= i < base.len() ==> stack@[i] == #[trigger] base[i],
                    forall|i: int| 0 <= i < stack@.len() ==> #[trigger] net.reachable(m0, stack@[i]@),
                    forall|i: int| 0 <= i < stack@.len() ==> (#[trigger] stack@[i]@).len() == m0.len(),
                    forall|k: int| 0 <= k < j ==> stack@[base.len() + k]@ == (#[trigger] edges@[k]).1@,
                decreases enabled@.len() - j,
            {
                let t = enabled[j];
                let transition = self.transition(t);
                let mut nm = current.duplicate();
                proof {
                    assert(net.can_fire(t.0 as int, current@));
                    assert(net.transitions[t.0 as int].within(m0.len()));
                    assert(net.transitions[t.0 as int].fits(current@));
                }
                transition.fire(&mut nm);
                proof {
                    lemma_reachable_step(net, m0, current@, t);
                    assert(nm@.len() == m0.len());
                }
                let ghost prev_edges = edges@;
                let dup = nm.duplicate();
                let ghost d = dup@;
                edges.push((t, dup));
                stack.push(nm);
                j += 1;
                proof {
                    assert(edges_view(edges@) =~= edges_view(prev_edges).push((t, d)));
                    assert(net.successors(current@)[j - 1] == (t, d));
                    assert(net.successors(current@).take(j as int) =~= net.successors(current@).take(j - 1).push((t, d)));
                }
            }
            proof {
                assert(edges_view(edges@) =~= net.successors(current@));
                assert forall|x: Seq<usize>| views(base).contains(x) implies views(stack@).contains(x) by {
                    let i = choose|i: int| 0 <= i < views(base).len() && views(base)[i] == x;
                    assert(views(stack@)[i] == x);
                };
                assert forall|k: int| 0 <= k < edges@.len() implies views(stack@).contains(edges_view(edges@)[k].1) by {
                    assert(views(stack@)[base.len() + k] == edges_view(edges@)[k].1);
                };
                lemma_unique_within(visited@.nodes.push(current@), r);
            }
            visited.insert_new(current, edges);
            proof {
                let cur = visited@.nodes[visited@.nodes.len() - 1];
                assert forall|i: int, k: int| 0 <= i < visited@.nodes.len() && 0 <= k < visited@.edges[i].len()
                    implies visited@.nodes.contains(#[trigger] visited@.edges[i][k].1)
                        || views(stack@).contains(visited@.edges[i][k].1) by {
                    if i < old_visited.nodes.len() {
                        assert(visited@.edges[i] == old_visited.edges[i]);
                        assert(visited@.nodes[i] == old_visited.nodes[i]);
                        let x = visited@.edges[i][k].1;
                        if old_visited.nodes.contains(x) {
                            let a = choose|a: int| 0 <= a < old_visited.nodes.len() && old_visited.nodes[a] == x;
                            assert(visited@.nodes[a] == x);
                        } else if x == cur {
                            assert(visited@.nodes[visited@.nodes.len() - 1] == x);
                        }
                    }
                };
                if old_visited.nodes.contains(m0) {
                    let a = choose|a: int| 0 <= a < old_visited.nodes.len() && old_visited.nodes[a] == m0;
                    assert(visited@.nodes[a] == m0);
                } else if m0 == cur {
                    assert(visited@.nodes[visited@.nodes.len() - 1] == m0);
                }
                assert forall|i: int| 0 <= i < visited@.nodes.len() implies #[trigger] net.reachable(m0, visited@.nodes[i]) by {
                    if i < old_visited.nodes.len() {
                        assert(visited@.nodes[i] == old_visited.nodes[i]);
                    }
                };
                assert forall|i: int| 0 <= i < visited@.nodes.len() implies
                    #[trigger] visited@.edges[i] == net.successors(visited@.nodes[i]) by {
                    if i < old_visited.nodes.len() {
                        assert(visited@.nodes[i] == old_visited.nodes[i]);
                    }
                };
            }
        }
        proof {
            let s = visited@.nodes.to_set();
            assert(visited@.nodes.contains(m0));
            assert forall|x: Seq<usize>, t: int| s.contains(x) && #[trigger] net.can_fire(t, x)
                implies s.contains(#[trigger] net.transitions[t].fire(x)) by {
                let i = choose|i: int| 0 <= i < visited@.nodes.len() && visited@.nodes[i] == x;
                lemma_enabled_upto(net, x, net.transitions.len());
                let ids = net.enabled_ids(x);
                assert(ids.contains(TransitionId(t as usize)));
                let k = choose|k: int| 0 <= k < ids.len() && ids[k] == TransitionId(t as usize);
                assert(visited@.edges[i] == net.successors(x));
                assert(visited@.edges[i][k].1 == net.transitions[t].fire(x));
            };
            assert forall|m: Seq<usize>| r.contains(m) implies s.contains(m) by {
                let ts = choose|ts: Seq<TransitionId>| #[trigger] net.run(m0, ts) == Some(m);
                lemma_closed_contains_run(net, s, m0, ts);
            };
            assert forall|m: Seq<usize>| s.contains(m) implies r.contains(m) by {
                let i = choose|i: int| 0 <= i < visited@.nodes.len() && visited@.nodes[i] == m;
                assert(net.reachable(m0, visited@.nodes[i]));
            };
            assert(s =~= r);
        }
        visited
    }
}

} // verus!
