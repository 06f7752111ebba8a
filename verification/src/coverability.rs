use vstd::prelude::*;

use crate::graph::{edges_view, lemma_push_keeps_out, lemma_unique_within, views, Graph, GraphView, State};
use crate::marking::Marking;
use crate::net::{
    lemma_consumed_absent, lemma_produced_prefix, consumed, produced, sorted_by_place, ArcKind, Arc, ArcsView, NetView, PetriNet, PlaceId,
    TransitionId, Weight,
};

verus! {

/// A token count, or `Omega`: more tokens than any bound, as produced by the
/// Karp-Miller widening. `Finite(n) < Omega` for every `n`.
#[derive(PartialEq, Eq, PartialOrd, Ord, Debug, Clone, Copy, Structural)]
pub enum ExtendedToken {
    Finite(usize),
    Omega,
}

/// `a <= b` in the order where every finite count lies below `Omega`.
pub open spec fn token_le(a: ExtendedToken, b: ExtendedToken) -> bool {
    match (a, b) {
        (ExtendedToken::Finite(x), ExtendedToken::Finite(y)) => x <= y,
        (_, ExtendedToken::Omega) => true,
        (ExtendedToken::Omega, ExtendedToken::Finite(_)) => false,
    }
}

/// `a < b` in the same order.
pub open spec fn token_lt(a: ExtendedToken, b: ExtendedToken) -> bool {
    token_le(a, b) && a != b
}

/// `a <= b`, computed.
pub fn token_less_eq(a: ExtendedToken, b: ExtendedToken) -> (r: bool)
    ensures
        r == token_le(a, b),
{
    match (a, b) {
        (ExtendedToken::Finite(x), ExtendedToken::Finite(y)) => x <= y,
        (_, ExtendedToken::Omega) => true,
        (ExtendedToken::Omega, ExtendedToken::Finite(_)) => false,
    }
}

/// `a < b`, computed.
pub fn token_less(a: ExtendedToken, b: ExtendedToken) -> (r: bool)
    ensures
        r == token_lt(a, b),
{
    token_less_eq(a, b) && a != b
}

impl ExtendedToken {
    pub open spec fn add_result(self, rhs: ExtendedToken) -> ExtendedToken {
        match (self, rhs) {
            (ExtendedToken::Finite(a), ExtendedToken::Finite(b)) => ExtendedToken::Finite((a + b) as usize),
            _ => ExtendedToken::Omega,
        }
    }

    pub open spec fn sub_result(self, rhs: ExtendedToken) -> ExtendedToken {
        match (self, rhs) {
            (ExtendedToken::Finite(a), ExtendedToken::Finite(b)) => ExtendedToken::Finite(
                if a >= b { (a - b) as usize } else { 0 },
            ),
            _ => ExtendedToken::Omega,
        }
    }
}

impl core::ops::Add for ExtendedToken {
    type Output = Self;

    /// Finite counts add up; anything plus `Omega` is `Omega`.
    fn add(self, rhs: Self) -> (r: Self::Output) {
        match (self, rhs) {
            (ExtendedToken::Finite(a), ExtendedToken::Finite(b)) => ExtendedToken::Finite(a + b),
            (ExtendedToken::Finite(_), ExtendedToken::Omega) => ExtendedToken::Omega,
            (ExtendedToken::Omega, _) => ExtendedToken::Omega,
        }
    }
}

impl vstd::std_specs::ops::AddSpecImpl for ExtendedToken {
    open spec fn obeys_add_spec() -> bool {
        true
    }

    open spec fn add_req(self, rhs: ExtendedToken) -> bool {
        match (self, rhs) {
            (ExtendedToken::Finite(a), ExtendedToken::Finite(b)) => a + b <= usize::MAX,
            _ => true,
        }
    }

    open spec fn add_spec(self, rhs: ExtendedToken) -> ExtendedToken {
        self.add_result(rhs)
    }
}

impl core::ops::Sub for ExtendedToken {
    type Output = Self;

    /// Finite counts subtract, stopping at zero; `Omega` on either side gives `Omega`.
    fn sub(self, rhs: Self) -> (r: Self::Output) {
        match (self, rhs) {
            (ExtendedToken::Finite(a), ExtendedToken::Finite(b)) => ExtendedToken::Finite(a.saturating_sub(b)),
            (ExtendedToken::Finite(_), ExtendedToken::Omega) => ExtendedToken::Omega,
            (ExtendedToken::Omega, _) => ExtendedToken::Omega,
        }
    }
}

impl vstd::std_specs::ops::SubSpecImpl for ExtendedToken {
    open spec fn obeys_sub_spec() -> bool {
        true
    }

    open spec fn sub_req(self, rhs: ExtendedToken) -> bool {
        true
    }

    open spec fn sub_spec(self, rhs: ExtendedToken) -> ExtendedToken {
        self.sub_result(rhs)
    }
}

/// A marking whose counts may be `Omega`.
#[derive(Default, PartialEq, Eq, PartialOrd, Ord, Debug, Clone)]
pub struct ExtendedMarking(pub(crate) Vec<ExtendedToken>);

impl View for ExtendedMarking {
    type V = Seq<ExtendedToken>;

    closed spec fn view(&self) -> Seq<ExtendedToken> {
        self.0@
    }
}

/// `a` dominates `b` (Karp-Miller): over their common places, no count of `a`
/// is below that of `b`, and at least one is above.
pub open spec fn dominates(a: Seq<ExtendedToken>, b: Seq<ExtendedToken>) -> bool {
    let n = if a.len() <= b.len() { a.len() } else { b.len() };
    &&& forall|i: int| 0 <= i < n ==> !token_lt(#[trigger] a[i], b[i])
    &&& exists|i: int| 0 <= i < n && token_lt(b[i], #[trigger] a[i])
}

/// `a` with `Omega` at every common place where it is above `b` (the widening
/// step), cut to the common places.
pub open spec fn promote(a: Seq<ExtendedToken>, b: Seq<ExtendedToken>) -> Seq<ExtendedToken> {
    let n = if a.len() <= b.len() { a.len() } else { b.len() };
    Seq::new(n, |i: int| if token_lt(b[i], a[i]) { ExtendedToken::Omega } else { a[i] })
}

/// The finite marking `m` with every count made `Finite`.
pub open spec fn extend(m: Seq<usize>) -> Seq<ExtendedToken> {
    m.map_values(|x: usize| ExtendedToken::Finite(x))
}

impl ExtendedMarking {
    /// The extended marking with the given counts.
    pub fn new(extended_tokens: Vec<ExtendedToken>) -> (m: Self)
        ensures
            m@ == extended_tokens@,
    {
        ExtendedMarking(extended_tokens)
    }

    /// `marking` with every count made `Finite`.
    pub fn from_marking(marking: &Marking) -> (m: Self)
        ensures
            m@ == extend(marking@),
    {
        let n = marking.len();
        let mut v: Vec<ExtendedToken> = Vec::new();
        let mut i: usize = 0;
        while i < n
            invariant
                n == marking@.len(),
                i <= n,
                v@ == extend(marking@).take(i as int),
            decreases n - i,
        {
            v.push(ExtendedToken::Finite(marking.get(i)));
            i += 1;
            proof {
                assert(v@ =~= extend(marking@).take(i as int));
            }
        }
        proof {
            assert(v@ =~= extend(marking@));
        }
        ExtendedMarking(v)
    }

    /// Number of places.
    pub fn len(&self) -> (n: usize)
        ensures
            n == self@.len(),
    {
        self.0.len()
    }

    /// Count of place `id`.
    pub fn tokens(&self, id: PlaceId) -> (t: ExtendedToken)
        requires
            id.0 < self@.len(),
        ensures
            t == self@[id.0 as int],
    {
        self.0[id.0]
    }

    /// Mutable access to the count of place `id`.
    pub fn tokens_mut(&mut self, id: PlaceId) -> (t: &mut ExtendedToken)
        requires
            id.0 < old(self)@.len(),
        ensures
            *t == old(self)@[id.0 as int],
            final(self)@ == old(self)@.update(id.0 as int, *final(t)),
    {
        &mut self.0[id.0]
    }

    /// Sets the count of place `i`.
    fn set(&mut self, i: usize, t: ExtendedToken)
        requires
            i < old(self)@.len(),
        ensures
            final(self)@ == old(self)@.update(i as int, t),
    {
        self.0.set(i, t);
    }

    /// Whether `self` dominates `other` (see [`dominates`]).
    pub fn dominates(&self, other: &Self) -> (b: bool)
        ensures
            b == dominates(self@, other@),
    {
        let n = if self.0.len() <= other.0.len() { self.0.len() } else { other.0.len() };
        let mut any_greater = false;
        let mut i: usize = 0;
        while i < n
            invariant
                n == (if self@.len() <= other@.len() { self@.len() } else { other@.len() }),
                i <= n,
                forall|j: int| 0 <= j < i ==> !token_lt(#[trigger] self@[j], other@[j]),
                any_greater == exists|j: int| 0 <= j < i && token_lt(other@[j], #[trigger] self@[j]),
            decreases n - i,
        {
            let a = self.0[i];
            let b = other.0[i];
            if token_less(a, b) {
                return false;
            }
            if token_less(b, a) {
                any_greater = true;
            }
            i += 1;
        }
        any_greater
    }

    /// `self` with `Omega` wherever it is above `other` (see [`promote`]).
    pub fn promote(&self, other: &Self) -> (r: Self)
        ensures
            r@ == promote(self@, other@),
    {
        let n = if self.0.len() <= other.0.len() { self.0.len() } else { other.0.len() };
        let mut v: Vec<ExtendedToken> = Vec::new();
        let mut i: usize = 0;
        while i < n
            invariant
                n == (if self@.len() <= other@.len() { self@.len() } else { other@.len() }),
                i <= n,
                v@ == promote(self@, other@).take(i as int),
            decreases n - i,
        {
            let a = self.0[i];
            let b = other.0[i];
            v.push(if token_less(b, a) { ExtendedToken::Omega } else { a });
            i += 1;
            proof {
                assert(v@ =~= promote(self@, other@).take(i as int));
            }
        }
        proof {
            assert(v@ =~= promote(self@, other@));
        }
        ExtendedMarking(v)
    }

    /// A copy of this marking.
    pub fn duplicate(&self) -> (r: Self)
        ensures
            r@ == self@,
    {
        let v = self.0.clone();
        proof {
            assert(v@ =~= self.0@);
        }
        ExtendedMarking(v)
    }

    /// Whether both hold the same counts.
    pub fn same(&self, other: &Self) -> (b: bool)
        ensures
            b == (self@ == other@),
    {
        if self.0.len() != other.0.len() {
            return false;
        }
        let n = self.0.len();
        let mut i: usize = 0;
        while i < n
            invariant
                n == self@.len(),
                n == other@.len(),
                i <= n,
                forall|j: int| 0 <= j < i ==> self@[j] == other@[j],
            decreases n - i,
        {
            if self.0[i] != other.0[i] {
                return false;
            }
            i += 1;
        }
        proof {
            assert(self@ =~= other@);
        }
        true
    }
}

impl State for ExtendedMarking {
    fn state_eq(&self, other: &Self) -> (b: bool) {
        self.same(other)
    }

    fn state_clone(&self) -> (r: Self) {
        self.duplicate()
    }
}

/// Whether an input arc of kind `k` lets a transition fire with count `t`.
pub open spec fn ext_allows(k: ArcKind, t: ExtendedToken) -> bool {
    match k {
        ArcKind::Consume(w) => token_le(ExtendedToken::Finite(w.0), t),
        ArcKind::Peek => token_lt(ExtendedToken::Finite(0), t),
        ArcKind::Inhibit => t == ExtendedToken::Finite(0),
    }
}

/// Every input arc of `a` lets its transition fire in `m`.
pub open spec fn ext_enabled(a: ArcsView, m: Seq<ExtendedToken>) -> bool {
    forall|j: int| #![trigger a.inputs[j]]
        0 <= j < a.inputs.len() ==> ext_allows(a.inputs[j].1, m[a.inputs[j].0.0 as int])
}

/// Count of place `p` after firing `a` in `m`: `Omega` stays `Omega`.
pub open spec fn ext_fired(a: ArcsView, m: Seq<ExtendedToken>, p: int) -> ExtendedToken {
    match m[p] {
        ExtendedToken::Omega => ExtendedToken::Omega,
        ExtendedToken::Finite(x) => ExtendedToken::Finite(
            (x - consumed(a.inputs, p) + produced(a.output, p)) as usize,
        ),
    }
}

/// Firing `a` in `m` keeps every finite count within `usize`.
pub open spec fn ext_fits(a: ArcsView, m: Seq<ExtendedToken>) -> bool {
    forall|p: int| 0 <= p < m.len() && #[trigger] m[p] is Finite
        ==> m[p]->Finite_0 - consumed(a.inputs, p) + produced(a.output, p) <= usize::MAX
}

/// The extended marking reached by firing `a` in `m`.
pub open spec fn ext_fire(a: ArcsView, m: Seq<ExtendedToken>) -> Seq<ExtendedToken> {
    Seq::new(m.len(), |p: int| ext_fired(a, m, p))
}

/// Whether every input arc of `arcs` is satisfied by `marking`, with `Omega`
/// above every finite weight.
pub fn is_enabled(marking: &ExtendedMarking, arcs: &Arc) -> (b: bool)
    requires
        crate::net::places_below(arcs@.inputs, marking@.len()),
    ensures
        b == ext_enabled(arcs@, marking@),
{
    let inputs = arcs.inputs();
    let n = inputs.len();
    let mut j: usize = 0;
    while j < n
        invariant
            n == inputs@.len(),
            inputs@ == arcs@.inputs,
            crate::net::places_below(arcs@.inputs, marking@.len()),
            j <= n,
            forall|i: int| #![trigger inputs@[i]]
                0 <= i < j ==> ext_allows(inputs@[i].1, marking@[inputs@[i].0.0 as int]),
        decreases n - j,
    {
        let (id, kind) = inputs[j];
        let t = marking.tokens(id);
        let ok = match kind {
            ArcKind::Consume(w) => token_less_eq(ExtendedToken::Finite(w.0), t),
            ArcKind::Peek => token_less(ExtendedToken::Finite(0), t),
            ArcKind::Inhibit => t == ExtendedToken::Finite(0),
        };
        if !ok {
            return false;
        }
        j += 1;
    }
    true
}

/// Fires `arcs` in `marking` if enabled there: consume from the inputs, then
/// produce into the outputs, `Omega` absorbing both. Returns whether it fired;
/// when it did not, `marking` is unchanged.
pub fn fire(marking: &mut ExtendedMarking, arcs: &Arc) -> (b: bool)
    requires
        arcs@.wf(),
        arcs@.within(old(marking)@.len()),
        ext_enabled(arcs@, old(marking)@) ==> ext_fits(arcs@, old(marking)@),
    ensures
        b == ext_enabled(arcs@, old(marking)@),
        b ==> final(marking)@ == ext_fire(arcs@, old(marking)@),
        !b ==> final(marking)@ == old(marking)@,
{
    if !is_enabled(marking, arcs) {
        return false;
    }
    consume_tokens(marking, arcs);
    proof {
        assert forall|p: int| 0 <= p < marking@.len() && #[trigger] marking@[p] is Finite
            implies marking@[p]->Finite_0 + produced(arcs@.output, p) <= usize::MAX by {
            assert(old(marking)@[p] is Finite);
        };
    }
    forward_tokens(marking, arcs);
    proof {
        assert forall|p: int| 0 <= p < marking@.len() implies marking@[p] == ext_fired(arcs@, old(marking)@, p) by {
            match old(marking)@[p] {
                ExtendedToken::Omega => {},
                ExtendedToken::Finite(x) => {},
            }
        };
        assert(marking@ =~= ext_fire(arcs@, old(marking)@));
    }
    true
}

/// Subtracts the weight of every consume arc from its place.
fn consume_tokens(marking: &mut ExtendedMarking, arcs: &Arc)
    requires
        arcs@.wf(),
        arcs@.within(old(marking)@.len()),
        ext_enabled(arcs@, old(marking)@),
    ensures
        final(marking)@.len() == old(marking)@.len(),
        forall|p: int| #![trigger final(marking)@[p]]
            0 <= p < old(marking)@.len() ==> match old(marking)@[p] {
                ExtendedToken::Omega => final(marking)@[p] == ExtendedToken::Omega,
                ExtendedToken::Finite(x) => final(marking)@[p] == ExtendedToken::Finite((x - consumed(arcs@.inputs, p)) as usize)
                    && x >= consumed(arcs@.inputs, p),
            },
{
    let inputs = arcs.inputs();
    let n = inputs.len();
    let mut j: usize = 0;
    while j < n
        invariant
            n == inputs@.len(),
            inputs@ == arcs@.inputs,
            arcs@.wf(),
            arcs@.within(old(marking)@.len()),
            ext_enabled(arcs@, old(marking)@),
            marking@.len() == old(marking)@.len(),
            j <= n,
            forall|p: int| #![trigger marking@[p]]
                0 <= p < old(marking)@.len() ==> match old(marking)@[p] {
                    ExtendedToken::Omega => marking@[p] == ExtendedToken::Omega,
                    ExtendedToken::Finite(x) => marking@[p] == ExtendedToken::Finite((x - consumed(inputs@.take(j as int), p)) as usize)
                        && x >= consumed(inputs@.take(j as int), p),
                },
        decreases n - j,
    {
        let (id, kind) = inputs[j];
        proof {
            assert(inputs@.take(j + 1).drop_last() =~= inputs@.take(j as int));
            assert forall|i: int| 0 <= i < inputs@.take(j as int).len()
                implies inputs@.take(j as int)[i].0.0 != id.0 by {
                assert(inputs@[i].0.0 < inputs@[j as int].0.0);
            };
            lemma_consumed_absent(inputs@.take(j as int), id.0 as int);
            assert(ext_allows(inputs@[j as int].1, old(marking)@[inputs@[j as int].0.0 as int]));
        }
        if let ArcKind::Consume(w) = kind {
            let cur = marking.tokens(id);
            marking.set(id.0, cur - ExtendedToken::Finite(w.0));
        }
        proof {
            assert forall|p: int| #![trigger marking@[p]]
                0 <= p < old(marking)@.len() implies match old(marking)@[p] {
                    ExtendedToken::Omega => marking@[p] == ExtendedToken::Omega,
                    ExtendedToken::Finite(x) => marking@[p] == ExtendedToken::Finite((x - consumed(inputs@.take(j + 1), p)) as usize)
                        && x >= consumed(inputs@.take(j + 1), p),
                } by {
            };
        }
        j += 1;
    }
    proof {
        assert(inputs@.take(n as int) =~= inputs@);
    }
}

/// Adds the weight of every output arc to its place.
fn forward_tokens(marking: &mut ExtendedMarking, arcs: &Arc)
    requires
        arcs@.wf(),
        arcs@.within(old(marking)@.len()),
        forall|p: int| 0 <= p < old(marking)@.len() && #[trigger] old(marking)@[p] is Finite
            ==> old(marking)@[p]->Finite_0 + produced(arcs@.output, p) <= usize::MAX,
    ensures
        final(marking)@.len() == old(marking)@.len(),
        forall|p: int| #![trigger final(marking)@[p]]
            0 <= p < old(marking)@.len() ==> match old(marking)@[p] {
                ExtendedToken::Omega => final(marking)@[p] == ExtendedToken::Omega,
                ExtendedToken::Finite(x) => final(marking)@[p] == ExtendedToken::Finite((x + produced(arcs@.output, p)) as usize),
            },
{
    let output = arcs.output();
    let n = output.len();
    let mut j: usize = 0;
    while j < n
        invariant
            n == output@.len(),
            output@ == arcs@.output,
            arcs@.wf(),
            arcs@.within(old(marking)@.len()),
            forall|p: int| 0 <= p < old(marking)@.len() && #[trigger] old(marking)@[p] is Finite
                ==> old(marking)@[p]->Finite_0 + produced(arcs@.output, p) <= usize::MAX,
            marking@.len() == old(marking)@.len(),
            j <= n,
            forall|p: int| #![trigger marking@[p]]
                0 <= p < old(marking)@.len() ==> match old(marking)@[p] {
                    ExtendedToken::Omega => marking@[p] == ExtendedToken::Omega,
                    ExtendedToken::Finite(x) => marking@[p] == ExtendedToken::Finite((x + produced(output@.take(j as int), p)) as usize),
                },
        decreases n - j,
    {
        let (id, w) = output[j];
        proof {
            assert(output@.take(j + 1).drop_last() =~= output@.take(j as int));
            lemma_produced_prefix(output@, j + 1, id.0 as int);
            lemma_produced_prefix(output@, j as int, id.0 as int);
        }
        let cur = marking.tokens(id);
        marking.set(id.0, cur + ExtendedToken::Finite(w.0));
        proof {
            assert forall|p: int| #![trigger marking@[p]]
                0 <= p < old(marking)@.len() implies match old(marking)@[p] {
                    ExtendedToken::Omega => marking@[p] == ExtendedToken::Omega,
                    ExtendedToken::Finite(x) => marking@[p] == ExtendedToken::Finite((x + produced(output@.take(j + 1), p)) as usize),
                } by {
            };
        }
        j += 1;
    }
    proof {
        assert(output@.take(n as int) =~= output@);
    }
}

/// One Karp-Miller widening step against `a`: promote `y` if it dominates `a`.
pub open spec fn widen_step(y: Seq<ExtendedToken>, a: Seq<ExtendedToken>) -> Seq<ExtendedToken> {
    if dominates(y, a) {
        promote(y, a)
    } else {
        y
    }
}

/// `x` widened against each of `anc` in order, first to last.
pub open spec fn widen(x: Seq<ExtendedToken>, anc: Seq<Seq<ExtendedToken>>) -> Seq<ExtendedToken>
    decreases anc.len(),
{
    if anc.len() == 0 {
        x
    } else {
        widen_step(widen(x, anc.drop_last()), anc.last())
    }
}

/// Indices of the transitions among the first `k` whose arcs are enabled in `m`, in order.
pub open spec fn ext_enabled_upto(net: NetView, m: Seq<ExtendedToken>, k: nat) -> Seq<TransitionId>
    decreases k,
{
    if k == 0 {
        Seq::empty()
    } else {
        let prev = ext_enabled_upto(net, m, (k - 1) as nat);
        if ext_enabled(net.transitions[k - 1], m) {
            prev.push(TransitionId((k - 1) as usize))
        } else {
            prev
        }
    }
}

/// Indices of all transitions enabled in `m`, in order.
pub open spec fn ext_enabled_ids(net: NetView, m: Seq<ExtendedToken>) -> Seq<TransitionId> {
    ext_enabled_upto(net, m, net.transitions.len())
}

/// The Karp-Miller children of `m` whose ancestors (itself last) are `anc`:
/// every enabled transition in index order, with the fired marking widened
/// against `anc`.
pub open spec fn km_children(net: NetView, m: Seq<ExtendedToken>, anc: Seq<Seq<ExtendedToken>>) -> Seq<(TransitionId, Seq<ExtendedToken>)> {
    ext_enabled_ids(net, m).map_values(
        |t: TransitionId| (t, widen(ext_fire(net.transitions[t.0 as int], m), anc)),
    )
}

/// The node of the Karp-Miller tree rooted at `root` reached by the transitions
/// `path`, with its ancestors (root first). A node equal to one of its ancestors
/// is a leaf; any other node has a child for every transition enabled in it.
pub open spec fn km_node(net: NetView, root: Seq<ExtendedToken>, path: Seq<TransitionId>) -> Option<(Seq<ExtendedToken>, Seq<Seq<ExtendedToken>>)>
    decreases path.len(),
{
    if path.len() == 0 {
        Some((root, Seq::empty()))
    } else {
        match km_node(net, root, path.drop_last()) {
            Some(node) => {
                let m = node.0;
                let anc = node.1;
                let t = path.last().0 as int;
                if !anc.contains(m) && 0 <= t < net.transitions.len() && ext_enabled(net.transitions[t], m) {
                    let anc2 = anc.push(m);
                    Some((widen(ext_fire(net.transitions[t], m), anc2), anc2))
                } else {
                    None
                }
            },
            None => None,
        }
    }
}

/// The paths of the Karp-Miller tree rooted at `root`.
pub open spec fn km_tree(net: NetView, root: Seq<ExtendedToken>) -> Set<Seq<TransitionId>> {
    Set::new(|p: Seq<TransitionId>| km_node(net, root, p) is Some)
}

/// Firing never exceeds `usize` at any inner node of the Karp-Miller tree.
pub open spec fn km_fits(net: NetView, root: Seq<ExtendedToken>) -> bool {
    forall|p: Seq<TransitionId>, t: int|
        #[trigger] km_node(net, root, p) is Some && !km_node(net, root, p).unwrap().1.contains(km_node(net, root, p).unwrap().0)
            && 0 <= t < net.transitions.len() && ext_enabled(#[trigger] net.transitions[t], km_node(net, root, p).unwrap().0)
            ==> ext_fits(net.transitions[t], km_node(net, root, p).unwrap().0)
}

pub proof fn lemma_widen_len(x: Seq<ExtendedToken>, anc: Seq<Seq<ExtendedToken>>)
    requires
        forall|i: int| 0 <= i < anc.len() ==> (#[trigger] anc[i]).len() == x.len(),
    ensures
        widen(x, anc).len() == x.len(),
    decreases anc.len(),
{
    if anc.len() > 0 {
        lemma_widen_len(x, anc.drop_last());
    }
}

/// Membership in the enabled list: exactly the enabled transitions below `k`, increasing.
pub proof fn lemma_ext_enabled_upto(net: NetView, m: Seq<ExtendedToken>, k: nat)
    requires
        k <= net.transitions.len(),
        net.transitions.len() <= usize::MAX,
    ensures
        forall|i: int| 0 <= i < ext_enabled_upto(net, m, k).len() ==> {
            let t = #[trigger] ext_enabled_upto(net, m, k)[i];
            t.0 < k && ext_enabled(net.transitions[t.0 as int], m)
        },
        forall|t: int| 0 <= t < k && ext_enabled(net.transitions[t], m)
            ==> ext_enabled_upto(net, m, k).contains(TransitionId(t as usize)),
        forall|i: int, j: int| 0 <= i < j < ext_enabled_upto(net, m, k).len()
            ==> ext_enabled_upto(net, m, k)[i].0 < ext_enabled_upto(net, m, k)[j].0,
    decreases k,
{
    if k > 0 {
        lemma_ext_enabled_upto(net, m, (k - 1) as nat);
        let prev = ext_enabled_upto(net, m, (k - 1) as nat);
        let cur = ext_enabled_upto(net, m, k);
        if ext_enabled(net.transitions[k - 1], m) {
            assert(cur == prev.push(TransitionId((k - 1) as usize)));
            assert forall|i: int| 0 <= i < cur.len() implies {
                let t = #[trigger] cur[i];
                t.0 < k && ext_enabled(net.transitions[t.0 as int], m)
            } by {
                if i < prev.len() {
                    assert(cur[i] == prev[i]);
                }
            };
            assert forall|t: int| 0 <= t < k && ext_enabled(net.transitions[t], m)
                implies cur.contains(TransitionId(t as usize)) by {
                if t < k - 1 {
                    let i = choose|i: int| 0 <= i < prev.len() && prev[i] == TransitionId(t as usize);
                    assert(cur[i] == TransitionId(t as usize));
                } else {
                    assert(cur[prev.len() as int] == TransitionId(t as usize));
                }
            };
            assert forall|i: int, j: int| 0 <= i < j < cur.len() implies cur[i].0 < cur[j].0 by {
                if j < prev.len() {
                    assert(cur[i] == prev[i] && cur[j] == prev[j]);
                } else {
                    assert(cur[i] == prev[i]);
                    assert(prev[i].0 < k - 1);
                }
            };
        } else {
            assert(cur == prev);
        }
    }
}

/// Copies of every marking of `v`, in order.
fn copy_all(v: &Vec<ExtendedMarking>) -> (r: Vec<ExtendedMarking>)
    ensures
        views(r@) == views(v@),
{
    let mut r: Vec<ExtendedMarking> = Vec::new();
    let mut i: usize = 0;
    while i < v.len()
        invariant
            i <= v@.len(),
            views(r@) == views(v@).take(i as int),
        decreases v@.len() - i,
    {
        let d = v[i].duplicate();
        let ghost prev = r@;
        r.push(d);
        proof {
            assert(r@ == prev.push(d));
            assert(views(r@) =~= views(prev).push(v@[i as int]@));
        }
        i += 1;
        proof {
            assert(views(r@) =~= views(v@).take(i as int));
        }
    }
    proof {
        assert(views(v@).take(v@.len() as int) =~= views(v@));
    }
    r
}

/// The children of `m`, widened against `anc`, for the transitions among the first `k`.
pub open spec fn km_edges_upto(net: NetView, m: Seq<ExtendedToken>, anc: Seq<Seq<ExtendedToken>>, k: nat) -> Seq<(TransitionId, Seq<ExtendedToken>)> {
    ext_enabled_upto(net, m, k).map_values(
        |t: TransitionId| (t, widen(ext_fire(net.transitions[t.0 as int], m), anc)),
    )
}

/// The ancestors of a Karp-Miller node are as many as the transitions leading to it.
pub proof fn lemma_km_node_anc_len(net: NetView, root: Seq<ExtendedToken>, p: Seq<TransitionId>)
    requires
        km_node(net, root, p) is Some,
    ensures
        km_node(net, root, p).unwrap().1.len() == p.len(),
        p.len() == 0 ==> km_node(net, root, p).unwrap().0 == root,
    decreases p.len(),
{
    if p.len() > 0 {
        lemma_km_node_anc_len(net, root, p.drop_last());
    }
}

/// `es` are the Karp-Miller children of `m` for some walk of `g` from `root` to `m`
/// taken as its ancestors.
pub open spec fn km_expansion(
    net: NetView,
    g: GraphView<Seq<ExtendedToken>>,
    root: Seq<ExtendedToken>,
    m: Seq<ExtendedToken>,
    es: Seq<(TransitionId, Seq<ExtendedToken>)>,
) -> bool {
    exists|anc: Seq<Seq<ExtendedToken>>| #[trigger] g.walk_from(root, anc, m) && es == km_children(net, m, anc)
}

/// A walk keeps being a walk when every step of it is kept.
pub proof fn lemma_walk_kept<V>(g: GraphView<V>, h: GraphView<V>, p: Seq<V>)
    requires
        g.is_walk(p),
        forall|a: V, b: V| g.step(a, b) ==> h.step(a, b),
    ensures
        h.is_walk(p),
{
    assert forall|i: int| #![trigger p[i]] 0 <= i < p.len() - 1 implies h.step(p[i], p[i + 1]) by {
        assert(g.step(p[i], p[i + 1]));
    };
}

/// What [`coverability_graph`] guarantees of its result `g` for `net` and `m0`:
/// the root `m0` comes first, every node has as many places as `m0`, every edge
/// target is a node, the edges of every node are its Karp-Miller children
/// widened against some walk from the root to it, and firing an enabled
/// transition at a node stays within `usize`.
pub open spec fn is_coverability_graph(net: NetView, m0: Seq<usize>, g: GraphView<Seq<ExtendedToken>>) -> bool {
    &&& g.wf()
    &&& g.nodes.len() > 0
    &&& g.nodes[0] == extend(m0)
    &&& forall|i: int| 0 <= i < g.nodes.len() ==> (#[trigger] g.nodes[i]).len() == m0.len()
    &&& forall|i: int, k: int| 0 <= i < g.nodes.len() && 0 <= k < g.edges[i].len()
        ==> g.has(#[trigger] g.edges[i][k].1)
    &&& forall|i: int| 0 <= i < g.nodes.len()
        ==> #[trigger] km_expansion(net, g, extend(m0), g.nodes[i], g.edges[i])
    &&& forall|i: int, t: int| 0 <= i < g.nodes.len() && 0 <= t < net.transitions.len()
        && ext_enabled(#[trigger] net.transitions[t], #[trigger] g.nodes[i])
        ==> ext_fits(net.transitions[t], g.nodes[i])
}

/// Views of the exploration stack of [`coverability_graph`]: each marking with its ancestors.
pub open spec fn entry_views(s: Seq<(ExtendedMarking, Vec<ExtendedMarking>)>) -> Seq<(Seq<ExtendedToken>, Seq<Seq<ExtendedToken>>)> {
    s.map_values(|e: (ExtendedMarking, Vec<ExtendedMarking>)| (e.0@, views(e.1@)))
}

/// Stack entries for the children `ev` of a node whose ancestors (itself last) are `anc`.
pub open spec fn km_child_entries(ev: Seq<(TransitionId, Seq<ExtendedToken>)>, anc: Seq<Seq<ExtendedToken>>) -> Seq<(Seq<ExtendedToken>, Seq<Seq<ExtendedToken>>)> {
    ev.map_values(|e: (TransitionId, Seq<ExtendedToken>)| (e.1, anc))
}

/// Tree paths of the children `ev` of the node at path `p`.
pub open spec fn km_child_paths(ev: Seq<(TransitionId, Seq<ExtendedToken>)>, p: Seq<TransitionId>) -> Seq<Seq<TransitionId>> {
    ev.map_values(|e: (TransitionId, Seq<ExtendedToken>)| p.push(e.0))
}

/// What holds between steps of the exploration in [`coverability_graph`]: the
/// stack `st` holds Karp-Miller tree nodes (at paths `tp`) not yet explored, whose
/// ancestors are explored nodes of `g` forming a walk from the root; every node
/// of `g` was explored from such a walk; every edge target of `g` is a node of
/// `g` or waits on the stack.
pub open spec fn km_inv(
    net: NetView,
    root: Seq<ExtendedToken>,
    n: nat,
    st: Seq<(Seq<ExtendedToken>, Seq<Seq<ExtendedToken>>)>,
    tp: Seq<Seq<TransitionId>>,
    expanded: Set<Seq<TransitionId>>,
    g: GraphView<Seq<ExtendedToken>>,
    node_anc: Seq<Seq<Seq<ExtendedToken>>>,
) -> bool {
    km_inv_tree(net, root, st, tp, expanded) && km_inv_graph(net, root, n, st, g, node_anc)
}

/// The stack part of [`km_inv`]: tree nodes not yet explored, each child of an explored one.
pub open spec fn km_inv_tree(
    net: NetView,
    root: Seq<ExtendedToken>,
    st: Seq<(Seq<ExtendedToken>, Seq<Seq<ExtendedToken>>)>,
    tp: Seq<Seq<TransitionId>>,
    expanded: Set<Seq<TransitionId>>,
) -> bool {
    &&& tp.len() == st.len()
    &&& forall|j: int| 0 <= j < st.len() ==> #[trigger] km_node(net, root, tp[j]) == Some(st[j])
    &&& tp.no_duplicates()
    &&& forall|j: int| 0 <= j < tp.len() ==> !expanded.contains(#[trigger] tp[j])
    &&& expanded.finite()
    &&& expanded.subset_of(km_tree(net, root))
    &&& forall|q: Seq<TransitionId>| #[trigger] expanded.contains(q) && q.len() > 0 ==> expanded.contains(q.drop_last())
    &&& forall|j: int| 0 <= j < tp.len() && (#[trigger] tp[j]).len() > 0 ==> expanded.contains(tp[j].drop_last())
}

/// The graph part of [`km_inv`].
pub open spec fn km_inv_graph(
    net: NetView,
    root: Seq<ExtendedToken>,
    n: nat,
    st: Seq<(Seq<ExtendedToken>, Seq<Seq<ExtendedToken>>)>,
    g: GraphView<Seq<ExtendedToken>>,
    node_anc: Seq<Seq<Seq<ExtendedToken>>>,
) -> bool {
    &&& g.wf()
    &&& forall|j: int| 0 <= j < st.len() ==> (#[trigger] st[j]).0.len() == n
    &&& forall|j: int, k: int| 0 <= j < st.len() && 0 <= k < st[j].1.len()
        ==> (#[trigger] st[j].1[k]).len() == n && g.has(st[j].1[k])
    &&& forall|j: int| 0 <= j < st.len() && (#[trigger] st[j]).1.len() > 0
        ==> st[j].1[0] == root && g.is_walk(st[j].1.push(st[j].0))
    &&& forall|i: int| 0 <= i < g.nodes.len() ==> (#[trigger] g.nodes[i]).len() == n
    &&& node_anc.len() == g.nodes.len()
    &&& forall|i: int| 0 <= i < g.nodes.len() ==> g.walk_from(root, #[trigger] node_anc[i], g.nodes[i])
        && g.edges[i] == km_children(net, g.nodes[i], node_anc[i])
    &&& g.nodes.len() > 0 ==> g.nodes[0] == root
    &&& g.nodes.len() == 0 ==> st.len() == 1 && st[0].0 == root
    &&& forall|i: int, k: int| 0 <= i < g.nodes.len() && 0 <= k < g.edges[i].len()
        ==> g.has(#[trigger] g.edges[i][k].1) || exists|j: int| 0 <= j < st.len() && st[j].0 == g.edges[i][k].1
    &&& forall|i: int, t: int| 0 <= i < g.nodes.len() && 0 <= t < net.transitions.len()
        && ext_enabled(#[trigger] net.transitions[t], #[trigger] g.nodes[i]) ==> ext_fits(net.transitions[t], g.nodes[i])
}

/// Dropping the top of the stack when it is an explored node keeps the invariant.
proof fn lemma_km_inv_skip(
    net: NetView,
    root: Seq<ExtendedToken>,
    n: nat,
    st: Seq<(Seq<ExtendedToken>, Seq<Seq<ExtendedToken>>)>,
    tp: Seq<Seq<TransitionId>>,
    expanded: Set<Seq<TransitionId>>,
    g: GraphView<Seq<ExtendedToken>>,
    node_anc: Seq<Seq<Seq<ExtendedToken>>>,
    x: (Seq<ExtendedToken>, Seq<Seq<ExtendedToken>>),
    p: Seq<TransitionId>,
)
    requires
        km_inv(net, root, n, st.push(x), tp.push(p), expanded, g, node_anc),
        g.has(x.0),
    ensures
        km_inv(net, root, n, st, tp, expanded, g, node_anc),
{
    let ost = st.push(x);
    let otp = tp.push(p);
    assert forall|j: int| 0 <= j < st.len() implies st[j] == #[trigger] ost[j] && tp[j] == otp[j] by {};
    assert forall|i: int, k: int| 0 <= i < g.nodes.len() && 0 <= k < g.edges[i].len()
        implies g.has(#[trigger] g.edges[i][k].1) || exists|j: int| 0 <= j < st.len() && st[j].0 == g.edges[i][k].1 by {
        let y = g.edges[i][k].1;
        if !g.has(y) {
            let j = choose|j: int| 0 <= j < ost.len() && ost[j].0 == y;
            assert(j != ost.len() - 1);
            assert(st[j] == ost[j]);
        }
    };
    assert(tp.no_duplicates()) by {
        assert forall|a: int, b: int| 0 <= a < b < tp.len() implies tp[a] != tp[b] by {
            assert(tp[a] == otp[a] && tp[b] == otp[b]);
        };
    };
    assert forall|j: int| 0 <= j < st.len() implies #[trigger] km_node(net, root, tp[j]) == Some(st[j]) by {
        assert(tp[j] == otp[j] && st[j] == ost[j]);
    };
    assert forall|j: int| 0 <= j < tp.len() && (#[trigger] tp[j]).len() > 0 implies expanded.contains(tp[j].drop_last()) by {
        assert(tp[j] == otp[j]);
    };
    assert forall|j: int| 0 <= j < tp.len() implies !expanded.contains(#[trigger] tp[j]) by {
        assert(tp[j] == otp[j]);
    };
    assert forall|j: int| 0 <= j < st.len() implies (#[trigger] st[j]).0.len() == n by {
        assert(st[j] == ost[j]);
    };
    assert forall|j: int, k: int| 0 <= j < st.len() && 0 <= k < st[j].1.len()
        implies (#[trigger] st[j].1[k]).len() == n && g.has(st[j].1[k]) by {
        assert(st[j] == ost[j]);
    };
    assert forall|j: int| 0 <= j < st.len() && (#[trigger] st[j]).1.len() > 0
        implies st[j].1[0] == root && g.is_walk(st[j].1.push(st[j].0)) by {
        assert(st[j] == ost[j]);
    };
}

/// Facts about the top of the stack when it is a new node.
proof fn lemma_km_inv_top(
    net: NetView,
    root: Seq<ExtendedToken>,
    n: nat,
    st: Seq<(Seq<ExtendedToken>, Seq<Seq<ExtendedToken>>)>,
    tp: Seq<Seq<TransitionId>>,
    expanded: Set<Seq<TransitionId>>,
    g: GraphView<Seq<ExtendedToken>>,
    node_anc: Seq<Seq<Seq<ExtendedToken>>>,
    x: (Seq<ExtendedToken>, Seq<Seq<ExtendedToken>>),
    p: Seq<TransitionId>,
)
    requires
        km_inv(net, root, n, st.push(x), tp.push(p), expanded, g, node_anc),
        !g.has(x.0),
    ensures
        km_node(net, root, p) == Some(x),
        !x.1.contains(x.0),
        km_tree(net, root).contains(p),
        !expanded.contains(p),
        x.0.len() == n,
        forall|k: int| 0 <= k < x.1.len() ==> (#[trigger] x.1[k]).len() == n,
        x.1.len() == p.len(),
        p.len() == 0 ==> x.0 == root,
{
    let ost = st.push(x);
    let otp = tp.push(p);
    let top = ost.len() - 1;
    assert(ost[top] == x && otp[top] == p);
    assert(km_node(net, root, otp[top]) == Some(ost[top]));
    assert(!expanded.contains(otp[top]));
    assert forall|k: int| 0 <= k < x.1.len() implies (#[trigger] x.1[k]).len() == n && g.has(x.1[k]) by {
        assert(ost[top].1[k] == x.1[k]);
    };
    if x.1.contains(x.0) {
        let k = choose|k: int| 0 <= k < x.1.len() && x.1[k] == x.0;
        assert(g.has(x.1[k]));
    }
    lemma_km_node_anc_len(net, root, p);
}

/// Exploring the top of the stack (a new node) keeps the stack part of the invariant.
#[verifier::rlimit(50)]
proof fn lemma_km_inv_expand_tree(
    net: NetView,
    root: Seq<ExtendedToken>,
    n: nat,
    st: Seq<(Seq<ExtendedToken>, Seq<Seq<ExtendedToken>>)>,
    tp: Seq<Seq<TransitionId>>,
    expanded: Set<Seq<TransitionId>>,
    g: GraphView<Seq<ExtendedToken>>,
    node_anc: Seq<Seq<Seq<ExtendedToken>>>,
    x: (Seq<ExtendedToken>, Seq<Seq<ExtendedToken>>),
    p: Seq<TransitionId>,
    g2: GraphView<Seq<ExtendedToken>>,
)
    requires
        km_inv(net, root, n, st.push(x), tp.push(p), expanded, g, node_anc),
        km_fits(net, root),
        net.wf(),
        net.transitions.len() <= usize::MAX,
        !g.has(x.0),
        g2.wf(),
        g2.nodes == g.nodes.push(x.0),
        g2.edges == g.edges.push(km_children(net, x.0, x.1.push(x.0))),
        forall|k: int| 0 <= k < km_children(net, x.0, x.1.push(x.0)).len()
            ==> (#[trigger] km_children(net, x.0, x.1.push(x.0))[k]).1.len() == n,
    ensures
        km_inv_tree(
            net,
            root,
            st + km_child_entries(km_children(net, x.0, x.1.push(x.0)), x.1.push(x.0)),
            tp + km_child_paths(km_children(net, x.0, x.1.push(x.0)), p),
            expanded.insert(p),
        ),
{
    let ancv = x.1.push(x.0);
    let ev = km_children(net, x.0, ancv);
    let ce = km_child_entries(ev, ancv);
    let cp = km_child_paths(ev, p);
    let nst = st + ce;
    let ntp = tp + cp;
    let nexp = expanded.insert(p);
    let nna = node_anc.push(ancv);
    let ost = st.push(x);
    let otp = tp.push(p);
    let cur = x.0;
    lemma_km_inv_top(net, root, n, st, tp, expanded, g, node_anc, x, p);
    lemma_ext_enabled_upto(net, cur, net.transitions.len());
    assert forall|j: int| 0 <= j < st.len() implies st[j] == #[trigger] ost[j] && tp[j] == otp[j] by {};
    assert forall|j: int| 0 <= j < st.len() implies nst[j] == #[trigger] st[j] && ntp[j] == tp[j] by {};
    assert forall|k: int| 0 <= k < ev.len() implies nst[st.len() + k] == #[trigger] ce[k] && ntp[st.len() + k] == cp[k] by {};
    assert forall|j: int| 0 <= j < nst.len() implies #[trigger] km_node(net, root, ntp[j]) == Some(nst[j]) by {
        if j < st.len() {
            assert(nst[j] == st[j] && ntp[j] == tp[j]);
            assert(ost[j] == st[j] && otp[j] == tp[j]);
            assert(km_node(net, root, otp[j]) == Some(ost[j]));
        } else {
            let k = j - st.len();
            let e = ev[k];
            assert(nst[j] == ce[k] && ntp[j] == cp[k]);
            assert(ntp[j] == p.push(e.0));
            assert(ntp[j].drop_last() =~= p);
            assert(ntp[j].last() == e.0);
            assert(ext_enabled_ids(net, cur)[k] == e.0);
            assert(ext_enabled(net.transitions[e.0.0 as int], cur));
            assert(e.1 == widen(ext_fire(net.transitions[e.0.0 as int], cur), ancv));
            assert(km_node(net, root, ntp[j].drop_last()) == Some(x));
        }
    };
    assert(ntp.no_duplicates()) by {
        assert forall|a: int, b: int| 0 <= a < b < ntp.len() implies ntp[a] != ntp[b] by {
            if b < tp.len() {
                assert(ntp[a] == tp[a] && ntp[b] == tp[b]);
                assert(otp[a] == tp[a] && otp[b] == tp[b]);
            } else if a < tp.len() {
                assert(ntp[b] == cp[b - tp.len()]);
                assert(ntp[b].drop_last() =~= p);
                assert(ntp[a] == tp[a]);
                assert(otp[a] == tp[a]);
                assert(otp[otp.len() - 1] == p);
                if ntp[a] == ntp[b] {
                    assert(otp[a].len() > 0);
                    assert(expanded.contains(otp[a].drop_last()));
                }
            } else {
                let ka = a - tp.len();
                let kb = b - tp.len();
                assert(ntp[a] == cp[ka] && ntp[b] == cp[kb]);
                assert(ev[ka].0 == ext_enabled_ids(net, cur)[ka]);
                assert(ev[kb].0 == ext_enabled_ids(net, cur)[kb]);
                assert(ntp[a].last() == ev[ka].0);
                assert(ntp[b].last() == ev[kb].0);
            }
        };
    };
    assert forall|j: int| 0 <= j < ntp.len() implies !nexp.contains(#[trigger] ntp[j]) by {
        if j < tp.len() {
            assert(ntp[j] == tp[j]);
            assert(otp[j] == tp[j]);
            assert(!expanded.contains(otp[j]));
            assert(otp[otp.len() - 1] == p);
            assert(otp[j] != otp[otp.len() - 1]);
        } else {
            assert(ntp[j] == cp[j - tp.len()]);
            assert(ntp[j].drop_last() =~= p);
            if expanded.contains(ntp[j]) {
                assert(expanded.contains(ntp[j].drop_last()));
            }
        }
    };
    assert forall|q: Seq<TransitionId>| #[trigger] nexp.contains(q) && q.len() > 0 implies nexp.contains(q.drop_last()) by {
        if q == p {
            assert(otp[otp.len() - 1] == p);
        }
    };
    assert forall|j: int| 0 <= j < ntp.len() && (#[trigger] ntp[j]).len() > 0 implies nexp.contains(ntp[j].drop_last()) by {
        if j >= tp.len() {
            assert(ntp[j] == cp[j - tp.len()]);
            assert(ntp[j].drop_last() =~= p);
        } else {
            assert(ntp[j] == tp[j]);
            assert(otp[j] == tp[j]);
            assert(expanded.contains(otp[j].drop_last()));
        }
    };
    vstd::set_lib::lemma_set_insert_finite_iff(expanded, p);
}

/// Exploring the top of the stack (a new node) keeps the graph part of the invariant.
#[verifier::rlimit(50)]
proof fn lemma_km_inv_expand_graph(
    net: NetView,
    root: Seq<ExtendedToken>,
    n: nat,
    st: Seq<(Seq<ExtendedToken>, Seq<Seq<ExtendedToken>>)>,
    tp: Seq<Seq<TransitionId>>,
    expanded: Set<Seq<TransitionId>>,
    g: GraphView<Seq<ExtendedToken>>,
    node_anc: Seq<Seq<Seq<ExtendedToken>>>,
    x: (Seq<ExtendedToken>, Seq<Seq<ExtendedToken>>),
    p: Seq<TransitionId>,
    g2: GraphView<Seq<ExtendedToken>>,
)
    requires
        km_inv(net, root, n, st.push(x), tp.push(p), expanded, g, node_anc),
        km_fits(net, root),
        net.wf(),
        net.transitions.len() <= usize::MAX,
        !g.has(x.0),
        g2.wf(),
        g2.nodes == g.nodes.push(x.0),
        g2.edges == g.edges.push(km_children(net, x.0, x.1.push(x.0))),
        forall|k: int| 0 <= k < km_children(net, x.0, x.1.push(x.0)).len()
            ==> (#[trigger] km_children(net, x.0, x.1.push(x.0))[k]).1.len() == n,
    ensures
        km_inv_graph(
            net,
            root,
            n,
            st + km_child_entries(km_children(net, x.0, x.1.push(x.0)), x.1.push(x.0)),
            g2,
            node_anc.push(x.1.push(x.0)),
        ),
{
    let ancv = x.1.push(x.0);
    let ev = km_children(net, x.0, ancv);
    let ce = km_child_entries(ev, ancv);
    let cp = km_child_paths(ev, p);
    let nst = st + ce;
    let ntp = tp + cp;
    let nexp = expanded.insert(p);
    let nna = node_anc.push(ancv);
    let ost = st.push(x);
    let otp = tp.push(p);
    let cur = x.0;
    lemma_km_inv_top(net, root, n, st, tp, expanded, g, node_anc, x, p);
    lemma_ext_enabled_upto(net, cur, net.transitions.len());
    assert forall|j: int| 0 <= j < st.len() implies st[j] == #[trigger] ost[j] && tp[j] == otp[j] by {};
    assert forall|j: int| 0 <= j < st.len() implies nst[j] == #[trigger] st[j] && ntp[j] == tp[j] by {};
    assert forall|k: int| 0 <= k < ev.len() implies nst[st.len() + k] == #[trigger] ce[k] && ntp[st.len() + k] == cp[k] by {};
    lemma_push_keeps_out(g, g2, cur, ev);
    assert forall|k: int| 0 <= k < ev.len() implies g2.step(cur, #[trigger] ev[k].1) by {
        assert(g2.out(cur)[k].1 == ev[k].1);
    };
    // the new node's ancestor walk
    if x.1.len() > 0 {
        assert(ost[ost.len() - 1] == x);
        lemma_walk_kept(g, g2, ancv);
    } else {
        assert(ancv =~= seq![root]);
    }
    assert(g2.walk_from(root, ancv, cur));
    assert forall|i: int| 0 <= i < g2.nodes.len() implies g2.walk_from(root, #[trigger] nna[i], g2.nodes[i])
        && g2.edges[i] == km_children(net, g2.nodes[i], nna[i]) by {
        if i < g.nodes.len() {
            lemma_walk_kept(g, g2, node_anc[i]);
        }
    };
    assert forall|i: int| 0 <= i < g2.nodes.len() implies (#[trigger] g2.nodes[i]).len() == n by {
        if i < g.nodes.len() {
            assert(g2.nodes[i] == g.nodes[i]);
        }
    };
    assert forall|j: int| 0 <= j < nst.len() implies (#[trigger] nst[j]).0.len() == n by {
        if j < st.len() {
            assert(nst[j] == st[j]);
            assert(ost[j] == st[j]);
            assert(ost[j].0.len() == n);
        } else {
            let k = j - st.len();
            assert(nst[j] == ce[k]);
            assert(ce[k].0 == ev[k].1);
            assert(ev[k].1.len() == n);
        }
    };
    assert forall|j: int, k: int| 0 <= j < nst.len() && 0 <= k < nst[j].1.len()
        implies (#[trigger] nst[j].1[k]).len() == n && g2.has(nst[j].1[k]) by {
        if j < st.len() {
            assert(nst[j] == st[j]);
            assert(ost[j] == st[j]);
            assert(ost[j].1[k].len() == n && g.has(ost[j].1[k]));
        } else {
            assert(nst[j].1 == ancv);
            if k < ancv.len() - 1 {
                assert(ancv[k] == x.1[k]);
            }
        }
    };
    assert forall|j: int| 0 <= j < nst.len() && (#[trigger] nst[j]).1.len() > 0
        implies nst[j].1[0] == root && g2.is_walk(nst[j].1.push(nst[j].0)) by {
        if j < st.len() {
            assert(nst[j] == st[j]);
            assert(ost[j] == st[j]);
            assert(ost[j].1.len() > 0);
            assert(g.is_walk(ost[j].1.push(ost[j].0)));
            lemma_walk_kept(g, g2, st[j].1.push(st[j].0));
        } else {
            let k = j - st.len();
            let w = ancv.push(ev[k].1);
            assert(nst[j] == (ev[k].1, ancv));
            assert(g2.step(cur, ev[k].1));
            assert forall|a: int| #![trigger w[a]] 0 <= a < w.len() - 1 implies g2.step(w[a], w[a + 1]) by {
                if a < ancv.len() - 1 {
                    assert(w[a] == ancv[a] && w[a + 1] == ancv[a + 1]);
                }
            };
        }
    };
    assert forall|i: int, k: int| 0 <= i < g2.nodes.len() && 0 <= k < g2.edges[i].len()
        implies g2.has(#[trigger] g2.edges[i][k].1) || exists|j: int| 0 <= j < nst.len() && nst[j].0 == g2.edges[i][k].1 by {
        let y = g2.edges[i][k].1;
        if i == g.nodes.len() {
            assert(nst[st.len() + k].0 == y);
        } else if !g2.has(y) {
            assert(g2.edges[i] == g.edges[i]);
            if !g.has(y) {
                let j = choose|j: int| 0 <= j < ost.len() && ost[j].0 == y;
                if j == ost.len() - 1 {
                    assert(g2.nodes[g2.nodes.len() - 1] == y);
                } else {
                    assert(nst[j] == ost[j]);
                }
            }
        }
    };
    if g.nodes.len() > 0 {
        assert(g2.nodes[0] == g.nodes[0]);
    } else {
        assert(ost[0] == x);
    }    assert forall|i: int, t: int| 0 <= i < g2.nodes.len() && 0 <= t < net.transitions.len()
        && ext_enabled(#[trigger] net.transitions[t], #[trigger] g2.nodes[i]) implies ext_fits(net.transitions[t], g2.nodes[i]) by {
        if i < g.nodes.len() {
            assert(g2.nodes[i] == g.nodes[i]);
        } else {
            assert(g2.nodes[i] == cur);
            assert(km_node(net, root, p) is Some);
        }
    };
}

/// Exploring the top of the stack (a new node) keeps the invariant: the node
/// joins the graph with its Karp-Miller children as edges, and the children
/// replace it on the stack.
proof fn lemma_km_inv_expand(
    net: NetView,
    root: Seq<ExtendedToken>,
    n: nat,
    st: Seq<(Seq<ExtendedToken>, Seq<Seq<ExtendedToken>>)>,
    tp: Seq<Seq<TransitionId>>,
    expanded: Set<Seq<TransitionId>>,
    g: GraphView<Seq<ExtendedToken>>,
    node_anc: Seq<Seq<Seq<ExtendedToken>>>,
    x: (Seq<ExtendedToken>, Seq<Seq<ExtendedToken>>),
    p: Seq<TransitionId>,
    g2: GraphView<Seq<ExtendedToken>>,
)
    requires
        km_inv(net, root, n, st.push(x), tp.push(p), expanded, g, node_anc),
        km_fits(net, root),
        net.wf(),
        net.transitions.len() <= usize::MAX,
        !g.has(x.0),
        g2.wf(),
        g2.nodes == g.nodes.push(x.0),
        g2.edges == g.edges.push(km_children(net, x.0, x.1.push(x.0))),
        forall|k: int| 0 <= k < km_children(net, x.0, x.1.push(x.0)).len()
            ==> (#[trigger] km_children(net, x.0, x.1.push(x.0))[k]).1.len() == n,
    ensures
        km_inv(
            net,
            root,
            n,
            st + km_child_entries(km_children(net, x.0, x.1.push(x.0)), x.1.push(x.0)),
            tp + km_child_paths(km_children(net, x.0, x.1.push(x.0)), p),
            expanded.insert(p),
            g2,
            node_anc.push(x.1.push(x.0)),
        ),
{
    lemma_km_inv_expand_tree(net, root, n, st, tp, expanded, g, node_anc, x, p, g2);
    lemma_km_inv_expand_graph(net, root, n, st, tp, expanded, g, node_anc, x, p, g2);
}

/// Karp-Miller coverability graph rooted at `initial`: the Karp-Miller tree
/// explored depth first, where a marking already explored anywhere is not
/// explored again. Each fired marking is widened against the markings on its
/// own path from the root, which puts `Omega` wherever it strictly grew.
///
/// The exploration ends for every net: the Karp-Miller tree is finite
/// ([`crate::termination::lemma_km_tree_finite`]).
pub fn coverability_graph(net: &PetriNet, initial: &Marking) -> (g: Graph<ExtendedMarking>)
    requires
        net.wf(),
        net@.within(initial@.len()),
        km_fits(net@, extend(initial@)),
    ensures
        g.wf(),
        is_coverability_graph(net@, initial@, g@),
{
    let ghost netv = net@;
    let ghost root = extend(initial@);
    let ghost tree = km_tree(netv, root);
    let ghost n = initial@.len();
    let nt = net.transition_count();
    proof {
        net.lemma_wf();
        crate::termination::lemma_km_tree_finite(netv, root);
    }
    let mut visited: Graph<ExtendedMarking> = Graph::new();
    let mut stack: Vec<(ExtendedMarking, Vec<ExtendedMarking>)> = Vec::new();
    stack.push((ExtendedMarking::from_marking(initial), Vec::new()));
    let ghost mut tp: Seq<Seq<TransitionId>> = seq![Seq::<TransitionId>::empty()];
    let ghost mut expanded: Set<Seq<TransitionId>> = Set::empty();
    let ghost mut node_anc: Seq<Seq<Seq<ExtendedToken>>> = Seq::empty();
    proof {
        assert(views(stack@[0].1@) =~= Seq::<Seq<ExtendedToken>>::empty());
        assert(entry_views(stack@)[0] == (root, Seq::<Seq<ExtendedToken>>::empty()));
        assert(km_node(netv, root, tp[0]) == Some(entry_views(stack@)[0]));
        assert(tp.no_duplicates());
        assert(visited@.nodes =~= Seq::<Seq<ExtendedToken>>::empty());
    }
    while stack.len() > 0
        invariant
            net.wf(),
            netv == net@,
            netv.wf(),
            netv.transitions.len() <= usize::MAX,
            nt == netv.transitions.len(),
            netv.within(n),
            tree == km_tree(netv, root),
            tree.finite(),
            km_fits(netv, root),
            root == extend(initial@),
            root.len() == n,
            visited.wf(),
            km_inv(netv, root, n, entry_views(stack@), tp, expanded, visited@, node_anc),
        decreases tree.len() - expanded.len(), stack@.len(),
    {
        let ghost old_stack = stack@;
        let ghost old_tp = tp;
        let ghost old_visited = visited@;
        let (current, path) = stack.pop().unwrap();
        let ghost p = tp.last();
        let ghost x = (current@, views(path@));
        proof {
            tp = tp.drop_last();
            assert(old_stack == stack@.push((current, path)));
            assert(entry_views(old_stack) =~= entry_views(stack@).push(x));
            assert(old_tp =~= tp.push(p));
        }
        if visited.contains_key(&current) {
            proof {
                lemma_km_inv_skip(netv, root, n, entry_views(stack@), tp, expanded, visited@, node_anc, x, p);
            }
            continue;
        }
        proof {
            lemma_km_inv_top(netv, root, n, entry_views(stack@), tp, expanded, visited@, node_anc, x, p);
            vstd::set_lib::lemma_len_subset(expanded.insert(p), tree);
            lemma_ext_enabled_upto(netv, current@, netv.transitions.len());
        }
        let mut anc = path;
        anc.push(current.duplicate());
        let ghost ancv = views(anc@);
        proof {
            assert(ancv =~= x.1.push(current@));
        }
        let mut edges: Vec<(TransitionId, ExtendedMarking)> = Vec::new();
        let ghost base = stack@;
        let ghost base_tp = tp;
        let mut i: usize = 0;
        while i < nt
            invariant
                net.wf(),
                netv == net@,
                netv.wf(),
                netv.transitions.len() <= usize::MAX,
                nt == netv.transitions.len(),
                netv.within(n),
                km_fits(netv, root),
                km_node(netv, root, p) == Some(x),
                x.0 == current@,
                !x.1.contains(current@),
                current@.len() == n,
                ancv == views(anc@),
                ancv == x.1.push(current@),
                forall|k: int| 0 <= k < ancv.len() ==> (#[trigger] ancv[k]).len() == n,
                i <= nt,
                edges_view(edges@) == km_edges_upto(netv, current@, ancv, i as nat),
                forall|k: int| 0 <= k < edges@.len() ==> (#[trigger] edges@[k]).1@.len() == n,
                entry_views(stack@) == entry_views(base) + km_child_entries(edges_view(edges@), ancv),
                tp == base_tp + km_child_paths(edges_view(edges@), p),
            decreases nt - i,
        {
            let t = TransitionId(i);
            let arcs = net.transition(t).arcs();
            proof {
                assert(netv.transitions[i as int].within(n));
            }
            if is_enabled(&current, arcs) {
                let mut nm = current.duplicate();
                proof {
                    assert(km_node(netv, root, p) is Some);
                    assert(ext_fits(netv.transitions[i as int], current@));
                    assert(netv.transitions[i as int].wf());
                }
                fire(&mut nm, arcs);
                let ghost fired = nm@;
                let mut k: usize = 0;
                while k < anc.len()
                    invariant
                        ancv == views(anc@),
                        forall|kk: int| 0 <= kk < ancv.len() ==> (#[trigger] ancv[kk]).len() == n,
                        fired.len() == n,
                        k <= anc@.len(),
                        nm@ == widen(fired, ancv.take(k as int)),
                        nm@.len() == n,
                    decreases anc@.len() - k,
                {
                    proof {
                        assert(ancv.take(k + 1).drop_last() =~= ancv.take(k as int));
                        assert(ancv[k as int] == anc@[k as int]@);
                    }
                    if nm.dominates(&anc[k]) {
                        nm = nm.promote(&anc[k]);
                    }
                    k += 1;
                }
                proof {
                    assert(ancv.take(anc@.len() as int) =~= ancv);
                }
                let ghost child = nm@;
                let ghost prev_edges = edges@;
                let ghost prev_stack = stack@;
                let dup = nm.duplicate();
                edges.push((t, dup));
                let a2 = copy_all(&anc);
                stack.push((nm, a2));
                proof {
                    tp = tp.push(p.push(t));
                    assert(edges_view(edges@) =~= edges_view(prev_edges).push((t, child)));
                    assert(ext_enabled_upto(netv, current@, (i + 1) as nat) == ext_enabled_upto(netv, current@, i as nat).push(t));
                    assert(km_edges_upto(netv, current@, ancv, (i + 1) as nat)
                        =~= km_edges_upto(netv, current@, ancv, i as nat).push((t, child)));
                    assert(entry_views(stack@) =~= entry_views(prev_stack).push((child, ancv)));
                    assert(km_child_entries(edges_view(edges@), ancv)
                        =~= km_child_entries(edges_view(prev_edges), ancv).push((child, ancv)));
                    assert(km_child_paths(edges_view(edges@), p)
                        =~= km_child_paths(edges_view(prev_edges), p).push(p.push(t)));
                }
            } else {
                proof {
                    assert(ext_enabled_upto(netv, current@, (i + 1) as nat) == ext_enabled_upto(netv, current@, i as nat));
                }
            }
            i += 1;
        }
        let ghost ev = edges_view(edges@);
        proof {
            assert(ev == km_children(netv, current@, ancv));
            assert forall|k: int| 0 <= k < ev.len() implies (#[trigger] ev[k]).1.len() == n by {
                assert(ev[k].1 == edges@[k].1@);
            };
        }
        visited.insert_new(current, edges);
        proof {
            lemma_km_inv_expand(netv, root, n, entry_views(base), base_tp, expanded, old_visited, node_anc, x, p, visited@);
            node_anc = node_anc.push(ancv);
            expanded = expanded.insert(p);
        }
    }
    proof {
        assert(visited@.nodes[0] == root);
        assert forall|i: int| 0 <= i < visited@.nodes.len()
            implies #[trigger] km_expansion(netv, visited@, root, visited@.nodes[i], visited@.edges[i]) by {
            assert(visited@.walk_from(root, node_anc[i], visited@.nodes[i]));
        };
    }
    visited
}

/// `big` has a count at least that of `small` at every place.
pub open spec fn covers(big: Seq<ExtendedToken>, small: Seq<usize>) -> bool {
    big.len() == small.len() && forall|p: int| 0 <= p < small.len() ==> token_le(ExtendedToken::Finite(small[p]), #[trigger] big[p])
}

/// No transition of `net` has an inhibitor arc.
pub open spec fn no_inhibit(net: NetView) -> bool {
    forall|t: int, j: int| 0 <= t < net.transitions.len() && 0 <= j < net.transitions[t].inputs.len()
        ==> #[trigger] net.transitions[t].inputs[j].1 != ArcKind::Inhibit
}

/// An enabled transition removes no more tokens than a place holds.
pub proof fn lemma_consumed_bounded(s: Seq<(PlaceId, ArcKind)>, m: Seq<usize>, p: int)
    requires
        sorted_by_place(s),
        forall|j: int| 0 <= j < s.len() ==> crate::net::kind_allows(#[trigger] s[j].1, m[s[j].0.0 as int]),
    ensures
        consumed(s, p) <= m[p],
    decreases s.len(),
{
    if s.len() > 0 {
        let last = s.last();
        assert(crate::net::kind_allows(s[s.len() - 1].1, m[s[s.len() - 1].0.0 as int]));
        if last.0.0 == p {
            assert forall|i: int| 0 <= i < s.drop_last().len() implies s.drop_last()[i].0.0 != p by {
                assert(s[i].0.0 < s[s.len() - 1].0.0);
            };
            lemma_consumed_absent(s.drop_last(), p);
        } else {
            assert forall|j: int| 0 <= j < s.drop_last().len()
                implies crate::net::kind_allows(#[trigger] s.drop_last()[j].1, m[s.drop_last()[j].0.0 as int]) by {
                assert(s.drop_last()[j] == s[j]);
            };
            lemma_consumed_bounded(s.drop_last(), m, p);
        }
    }
}

/// Widening only raises counts.
pub proof fn lemma_widen_covers(x: Seq<ExtendedToken>, anc: Seq<Seq<ExtendedToken>>, m: Seq<usize>)
    requires
        covers(x, m),
        forall|i: int| 0 <= i < anc.len() ==> (#[trigger] anc[i]).len() == x.len(),
    ensures
        covers(widen(x, anc), m),
    decreases anc.len(),
{
    if anc.len() > 0 {
        lemma_widen_covers(x, anc.drop_last(), m);
        lemma_widen_len(x, anc.drop_last());
        let y = widen(x, anc.drop_last());
        if dominates(y, anc.last()) {
            let z = promote(y, anc.last());
            assert forall|p: int| 0 <= p < m.len() implies token_le(ExtendedToken::Finite(m[p]), #[trigger] z[p]) by {
                assert(token_le(ExtendedToken::Finite(m[p]), y[p]));
            };
        }
    }
}

/// A transition enabled in a marking is enabled in any covering extended
/// marking, provided it has no inhibitor arc.
pub proof fn lemma_enabled_covered(a: ArcsView, m: Seq<usize>, big: Seq<ExtendedToken>)
    requires
        a.within(m.len()),
        covers(big, m),
        a.enabled(m),
        forall|j: int| 0 <= j < a.inputs.len() ==> #[trigger] a.inputs[j].1 != ArcKind::Inhibit,
    ensures
        ext_enabled(a, big),
{
    assert forall|j: int| #![trigger a.inputs[j]] 0 <= j < a.inputs.len()
        implies ext_allows(a.inputs[j].1, big[a.inputs[j].0.0 as int]) by {
        let p = a.inputs[j].0.0 as int;
        assert(token_le(ExtendedToken::Finite(m[p]), big[p]));
    };
}

/// Firing keeps covering: the fired extended marking covers the fired marking.
pub proof fn lemma_fire_covered(a: ArcsView, m: Seq<usize>, big: Seq<ExtendedToken>)
    requires
        a.wf(),
        a.within(m.len()),
        covers(big, m),
        a.enabled(m),
        a.fits(m),
        ext_enabled(a, big),
        ext_fits(a, big),
    ensures
        covers(ext_fire(a, big), a.fire(m)),
{
    let f = a.fire(m);
    let e = ext_fire(a, big);
    assert forall|p: int| 0 <= p < f.len() implies token_le(ExtendedToken::Finite(f[p]), #[trigger] e[p]) by {
        lemma_consumed_bounded(a.inputs, m, p);
        assert(a.fired_count(m, p) <= usize::MAX);
        assert(token_le(ExtendedToken::Finite(m[p]), big[p]));
        match big[p] {
            ExtendedToken::Omega => {},
            ExtendedToken::Finite(y) => {
                assert(y >= m[p]);
            },
        }
    };
}

/// Every marking reachable from `m0` is covered by a node of a coverability
/// graph of `net` from `m0`, when `net` has no inhibitor arc (an `Omega` count
/// can make an inhibitor arc look blocked although some concrete count is zero).
pub proof fn lemma_coverability_covers(net: NetView, m0: Seq<usize>, g: GraphView<Seq<ExtendedToken>>, m: Seq<usize>)
    requires
        is_coverability_graph(net, m0, g),
        net.wf(),
        net.within(m0.len()),
        net.transitions.len() <= usize::MAX,
        no_inhibit(net),
        net.fits_from(m0),
        net.reachable(m0, m),
    ensures
        exists|i: int| 0 <= i < g.nodes.len() && covers(#[trigger] g.nodes[i], m),
{
    let ts = choose|ts: Seq<TransitionId>| #[trigger] net.run(m0, ts) == Some(m);
    crate::net::lemma_reachable_self(net, m0);
    assert(covers(g.nodes[0], m0)) by {
        assert forall|p: int| 0 <= p < m0.len() implies token_le(ExtendedToken::Finite(m0[p]), #[trigger] g.nodes[0][p]) by {};
    };
    lemma_covered_run(net, m0, g, m0, Seq::empty(), 0, ts);
}

/// Induction step of [`lemma_coverability_covers`]: from a covered reachable
/// marking, the rest of a run stays covered.
proof fn lemma_covered_run(
    net: NetView,
    m0: Seq<usize>,
    g: GraphView<Seq<ExtendedToken>>,
    m: Seq<usize>,
    done: Seq<TransitionId>,
    i: int,
    ts: Seq<TransitionId>,
)
    requires
        is_coverability_graph(net, m0, g),
        net.wf(),
        net.within(m0.len()),
        net.transitions.len() <= usize::MAX,
        no_inhibit(net),
        net.fits_from(m0),
        net.run(m0, done) == Some(m),
        0 <= i < g.nodes.len(),
        covers(g.nodes[i], m),
        net.run(m, ts) is Some,
    ensures
        exists|k: int| 0 <= k < g.nodes.len() && covers(#[trigger] g.nodes[k], net.run(m, ts).unwrap()),
    decreases ts.len(),
{
    if ts.len() == 0 {
        assert(covers(g.nodes[i], net.run(m, ts).unwrap()));
    } else {
        let t = ts[0];
        let a = net.transitions[t.0 as int];
        let node = g.nodes[i];
        crate::net::lemma_run_len(net, m0, done);
        assert(net.reachable(m0, m));
        assert(a.within(m.len()));
        assert(forall|j: int| 0 <= j < a.inputs.len() ==> #[trigger] a.inputs[j].1 != ArcKind::Inhibit);
        lemma_enabled_covered(a, m, node);
        assert(ext_fits(a, node));
        assert(a.fits(m));
        lemma_fire_covered(a, m, node);
        // the edge of `node` for `t`
        assert(km_expansion(net, g, extend(m0), node, g.edges[i]));
        let anc = choose|anc: Seq<Seq<ExtendedToken>>| #[trigger] g.walk_from(extend(m0), anc, node)
            && g.edges[i] == km_children(net, node, anc);
        lemma_ext_enabled_upto(net, node, net.transitions.len());
        let ids = ext_enabled_ids(net, node);
        assert(ids.contains(t));
        let k = choose|k: int| 0 <= k < ids.len() && ids[k] == t;
        let target = g.edges[i][k].1;
        assert(target == widen(ext_fire(a, node), anc));
        assert forall|q: int| 0 <= q < anc.len() implies (#[trigger] anc[q]).len() == ext_fire(a, node).len() by {
            if q < anc.len() - 1 {
                assert(g.step(anc[q], anc[q + 1]));
            }
            assert(g.has(anc[q])) by {
                if q < anc.len() - 1 {
                    assert(g.step(anc[q], anc[q + 1]));
                    assert(g.out(anc[q]).len() > 0);
                } else {
                    assert(anc[q] == node);
                    assert(g.nodes[i] == node);
                }
            };
            let r = g.index_of(anc[q]);
            assert(g.nodes[r] == anc[q]);
        };
        lemma_widen_covers(ext_fire(a, node), anc, a.fire(m));
        assert(g.has(target));
        let j = g.index_of(target);
        assert(g.nodes[j] == target);
        crate::net::lemma_run_push(net, m0, done, t);
        lemma_covered_run(net, m0, g, a.fire(m), done.push(t), j, ts.drop_first());
    }
}

/// No count of `m` is `Omega`.
pub open spec fn omega_free(m: Seq<ExtendedToken>) -> bool {
    forall|p: int| 0 <= p < m.len() ==> #[trigger] m[p] is Finite
}

/// Widening keeps every `Omega`.
pub proof fn lemma_widen_keeps_omega(x: Seq<ExtendedToken>, anc: Seq<Seq<ExtendedToken>>, p: int)
    requires
        forall|i: int| 0 <= i < anc.len() ==> (#[trigger] anc[i]).len() == x.len(),
        0 <= p < x.len(),
        x[p] == ExtendedToken::Omega,
    ensures
        widen(x, anc)[p] == ExtendedToken::Omega,
    decreases anc.len(),
{
    if anc.len() > 0 {
        lemma_widen_keeps_omega(x, anc.drop_last(), p);
        lemma_widen_len(x, anc.drop_last());
    }
}

/// A widening that leaves no `Omega` changed nothing.
proof fn lemma_widen_free(x: Seq<ExtendedToken>, anc: Seq<Seq<ExtendedToken>>)
    requires
        forall|i: int| 0 <= i < anc.len() ==> (#[trigger] anc[i]).len() == x.len(),
        omega_free(widen(x, anc)),
    ensures
        widen(x, anc) == x,
    decreases anc.len(),
{
    if anc.len() > 0 {
        lemma_widen_len(x, anc.drop_last());
        let w = widen(x, anc.drop_last());
        let a = anc.last();
        if dominates(w, a) {
            let i = choose|i: int| 0 <= i < x.len() && token_lt(a[i], #[trigger] w[i]);
            assert(promote(w, a)[i] == ExtendedToken::Omega);
        }
        lemma_widen_free(x, anc.drop_last());
    }
}

/// An arc enabled in the finite marking `m` read as an extended one is
/// enabled in `m`, and conversely.
proof fn lemma_enabled_extend(a: ArcsView, m: Seq<usize>)
    requires
        crate::net::places_below(a.inputs, m.len()),
    ensures
        ext_enabled(a, extend(m)) <==> a.enabled(m),
{
    if ext_enabled(a, extend(m)) {
        assert forall|j: int| #![trigger a.inputs[j]] 0 <= j < a.inputs.len()
            implies crate::net::kind_allows(a.inputs[j].1, m[a.inputs[j].0.0 as int]) by {
            assert(ext_allows(a.inputs[j].1, extend(m)[a.inputs[j].0.0 as int]));
        };
    }
    if a.enabled(m) {
        assert forall|j: int| #![trigger a.inputs[j]] 0 <= j < a.inputs.len()
            implies ext_allows(a.inputs[j].1, extend(m)[a.inputs[j].0.0 as int]) by {
            assert(crate::net::kind_allows(a.inputs[j].1, m[a.inputs[j].0.0 as int]));
        };
    }
}

/// The edges of a node of a coverability graph are its Karp-Miller children
/// against ancestors as long as the node.
pub proof fn lemma_node_children(net: NetView, m0: Seq<usize>, g: GraphView<Seq<ExtendedToken>>, s: Seq<ExtendedToken>)
    -> (anc: Seq<Seq<ExtendedToken>>)
    requires
        is_coverability_graph(net, m0, g),
        g.has(s),
    ensures
        g.out(s) == km_children(net, s, anc),
        g.walk_from(extend(m0), anc, s),
        forall|q: int| 0 <= q < anc.len() ==> (#[trigger] anc[q]).len() == m0.len(),
        s.len() == m0.len(),
{
    let i = g.index_of(s);
    assert(g.nodes[i] == s);
    assert(km_expansion(net, g, extend(m0), s, g.edges[i]));
    let anc = choose|anc: Seq<Seq<ExtendedToken>>| #[trigger] g.walk_from(extend(m0), anc, s)
        && g.edges[i] == km_children(net, s, anc);
    assert forall|q: int| 0 <= q < anc.len() implies (#[trigger] anc[q]).len() == m0.len() by {
        if q < anc.len() - 1 {
            assert(g.step(anc[q], anc[q + 1]));
            assert(g.out(anc[q]).len() > 0);
        } else {
            assert(anc[q] == s);
        }
        assert(g.has(anc[q]));
        let r = g.index_of(anc[q]);
        assert(g.nodes[r] == anc[q]);
    };
    anc
}

/// An edge of a coverability graph leaving a node without `Omega` for one
/// without `Omega` is a firing of the net.
proof fn lemma_edge_finite(net: NetView, m0: Seq<usize>, g: GraphView<Seq<ExtendedToken>>, ms: Seq<usize>, k: int)
    requires
        is_coverability_graph(net, m0, g),
        net.wf(),
        net.within(m0.len()),
        net.transitions.len() <= usize::MAX,
        g.has(extend(ms)),
        0 <= k < g.out(extend(ms)).len(),
        omega_free(g.out(extend(ms))[k].1),
    ensures
        net.can_fire(g.out(extend(ms))[k].0.0 as int, ms),
        extend(net.transitions[g.out(extend(ms))[k].0.0 as int].fire(ms)) == g.out(extend(ms))[k].1,
{
    let s = extend(ms);
    let anc = lemma_node_children(net, m0, g, s);
    assert(ms.len() == m0.len());
    lemma_ext_enabled_upto(net, s, net.transitions.len());
    let ids = ext_enabled_ids(net, s);
    let t = ids[k];
    assert(g.out(s)[k] == (t, widen(ext_fire(net.transitions[t.0 as int], s), anc)));
    let a = net.transitions[t.0 as int];
    assert(ext_enabled(a, s));
    assert(a.within(m0.len()));
    lemma_enabled_extend(a, ms);
    let f = ext_fire(a, s);
    lemma_widen_free(f, anc);
    let i = g.index_of(s);
    assert(g.nodes[i] == s);
    assert(ext_fits(a, g.nodes[i]));
    assert(a.wf());
    assert forall|p: int| 0 <= p < ms.len() implies #[trigger] a.fired_count(ms, p) <= usize::MAX && a.fired_count(ms, p) >= 0 by {
        assert(s[p] is Finite);
        lemma_consumed_bounded(a.inputs, ms, p);
    };
    assert(extend(a.fire(ms)) =~= f);
}

/// An edge of a coverability graph keeps every `Omega` of the node it leaves.
proof fn lemma_edge_keeps_omega(net: NetView, m0: Seq<usize>, g: GraphView<Seq<ExtendedToken>>, s: Seq<ExtendedToken>, k: int, p: int)
    requires
        is_coverability_graph(net, m0, g),
        net.transitions.len() <= usize::MAX,
        0 <= k < g.out(s).len(),
        0 <= p < s.len(),
        s[p] == ExtendedToken::Omega,
    ensures
        g.out(s)[k].1[p] == ExtendedToken::Omega,
{
    assert(g.has(s));
    let anc = lemma_node_children(net, m0, g, s);
    lemma_ext_enabled_upto(net, s, net.transitions.len());
    let ids = ext_enabled_ids(net, s);
    let t = ids[k];
    let f = ext_fire(net.transitions[t.0 as int], s);
    assert(g.out(s)[k] == (t, widen(f, anc)));
    assert(f[p] == ExtendedToken::Omega);
    lemma_widen_keeps_omega(f, anc, p);
}

/// A walk of a coverability graph from its root to a node without `Omega`
/// follows a firing sequence of the net: the node stands for a reachable marking.
proof fn lemma_walk_finite(net: NetView, m0: Seq<usize>, g: GraphView<Seq<ExtendedToken>>, w: Seq<Seq<ExtendedToken>>)
    requires
        is_coverability_graph(net, m0, g),
        net.wf(),
        net.within(m0.len()),
        net.transitions.len() <= usize::MAX,
        g.walk_from(extend(m0), w, w.last()),
        omega_free(w.last()),
    ensures
        exists|m: Seq<usize>| net.reachable(m0, m) && extend(m) == w.last(),
    decreases w.len(),
{
    if w.len() == 1 {
        crate::net::lemma_reachable_self(net, m0);
        assert(net.reachable(m0, m0) && extend(m0) == w.last());
    } else {
        let v = w.drop_last();
        let s = v.last();
        let x = w.last();
        assert(g.step(w[w.len() - 2], w[w.len() - 1]));
        assert(s == w[w.len() - 2]);
        let k = choose|k: int| 0 <= k < g.out(s).len() && #[trigger] g.out(s)[k].1 == x;
        assert(g.has(s));
        let anc = lemma_node_children(net, m0, g, s);
        assert(omega_free(s)) by {
            assert forall|p: int| 0 <= p < s.len() implies #[trigger] s[p] is Finite by {
                if s[p] == ExtendedToken::Omega {
                    lemma_edge_keeps_omega(net, m0, g, s, k, p);
                    lemma_ext_enabled_upto(net, s, net.transitions.len());
                    let f = ext_fire(net.transitions[ext_enabled_ids(net, s)[k].0 as int], s);
                    lemma_widen_len(f, anc);
                    assert(x[p] == ExtendedToken::Omega);
                }
            };
        };
        assert(g.walk_from(extend(m0), v, s)) by {
            assert forall|i: int| #![trigger v[i]] 0 <= i < v.len() - 1 implies g.step(v[i], v[i + 1]) by {
                assert(w[i] == v[i] && w[i + 1] == v[i + 1]);
                assert(g.step(w[i], w[i + 1]));
            };
        };
        lemma_walk_finite(net, m0, g, v);
        let ms = choose|m: Seq<usize>| net.reachable(m0, m) && extend(m) == s;
        lemma_edge_finite(net, m0, g, ms, k);
        let t = g.out(s)[k].0;
        crate::net::lemma_reachable_step(net, m0, ms, t);
    }
}

/// Every node of a coverability graph without `Omega` stands for a marking
/// reachable from `m0`.
pub proof fn lemma_finite_node_reachable(net: NetView, m0: Seq<usize>, g: GraphView<Seq<ExtendedToken>>, x: Seq<ExtendedToken>)
    requires
        is_coverability_graph(net, m0, g),
        net.wf(),
        net.within(m0.len()),
        net.transitions.len() <= usize::MAX,
        g.has(x),
        omega_free(x),
    ensures
        exists|m: Seq<usize>| net.reachable(m0, m) && extend(m) == x,
{
    let anc = lemma_node_children(net, m0, g, x);
    lemma_walk_finite(net, m0, g, anc);
}

/// A dead node of a coverability graph holding no `Omega` is a real deadlock
/// (the soundness of [`crate::deadlock::deadlocks_covering`] on such nodes):
/// it stands for a marking reachable from `m0` in which no transition is
/// enabled.
pub proof fn lemma_finite_dead_node(net: NetView, m0: Seq<usize>, g: GraphView<Seq<ExtendedToken>>, x: Seq<ExtendedToken>)
    requires
        is_coverability_graph(net, m0, g),
        net.wf(),
        net.within(m0.len()),
        net.transitions.len() <= usize::MAX,
        g.has(x),
        g.out(x).len() == 0,
        omega_free(x),
    ensures
        exists|m: Seq<usize>| net.reachable(m0, m) && extend(m) == x && forall|t: int| !#[trigger] net.can_fire(t, m),
{
    lemma_finite_node_reachable(net, m0, g, x);
    let m = choose|m: Seq<usize>| net.reachable(m0, m) && extend(m) == x;
    let anc = lemma_node_children(net, m0, g, x);
    lemma_ext_enabled_upto(net, x, net.transitions.len());
    assert(ext_enabled_ids(net, x).len() == 0);
    assert forall|t: int| !#[trigger] net.can_fire(t, m) by {
        if 0 <= t < net.transitions.len() {
            assert(net.transitions[t].within(m0.len()));
            assert(m.len() == x.len());
            lemma_enabled_extend(net.transitions[t], m);
            if ext_enabled(net.transitions[t], x) {
                assert(ext_enabled_ids(net, x).contains(TransitionId(t as usize)));
            }
        }
    };
}

/// Markings with one count per entry of `bounds`, each at most its bound.
pub open spec fn within_bounds(bounds: Seq<usize>) -> Set<Seq<usize>> {
    Set::new(|m: Seq<usize>| m.len() == bounds.len() && forall|p: int| 0 <= p < bounds.len() ==> #[trigger] m[p] <= bounds[p])
}

/// Finitely many markings stay within given bounds.
proof fn lemma_within_bounds_finite(bounds: Seq<usize>)
    ensures
        within_bounds(bounds).finite(),
    decreases bounds.len(),
{
    if bounds.len() == 0 {
        assert forall|x: Seq<usize>| within_bounds(bounds).contains(x) <==> set![Seq::<usize>::empty()].contains(x) by {
            if within_bounds(bounds).contains(x) {
                assert(x =~= Seq::<usize>::empty());
            }
        };
        assert(within_bounds(bounds) =~= set![Seq::<usize>::empty()]);
    } else {
        let front = bounds.drop_last();
        let b = bounds.last();
        lemma_within_bounds_finite(front);
        let prev = within_bounds(front);
        let counts = vstd::set_lib::set_int_range(0, b + 1);
        vstd::set_lib::lemma_int_range(0, b + 1);
        let fwd = |m: Seq<usize>| counts.map(|v: int| m.push(v as usize));
        let rev = |x: Seq<usize>| x.drop_last();
        assert forall|m: Seq<usize>| prev.contains(m) implies #[trigger] fwd(m).finite() by {
            counts.lemma_map_finite(|v: int| m.push(v as usize));
        };
        prev.lemma_map_flatten_by_finite(fwd, rev);
        let all = prev.map_flatten_by(fwd, rev);
        assert forall|x: Seq<usize>| within_bounds(bounds).contains(x) implies all.contains(x) by {
            let m = x.drop_last();
            assert(prev.contains(m)) by {
                assert forall|p: int| 0 <= p < front.len() implies #[trigger] m[p] <= front[p] by {
                    assert(x[p] <= bounds[p]);
                };
            };
            let v = x.last() as int;
            assert(x[x.len() - 1] <= bounds[bounds.len() - 1]);
            assert(counts.contains(v));
            assert(m.push(v as usize) =~= x);
            assert(fwd(m).contains(x));
            assert(rev(x) == m);
        };
        vstd::set_lib::lemma_set_subset_finite(all, within_bounds(bounds));
    }
}

/// In a coverability graph without `Omega`, firing a transition enabled in a
/// marking that is a node stays within `usize` and gives a node again.
proof fn lemma_free_step(net: NetView, m0: Seq<usize>, g: GraphView<Seq<ExtendedToken>>, ms: Seq<usize>, t: int)
    requires
        is_coverability_graph(net, m0, g),
        net.wf(),
        net.within(m0.len()),
        net.transitions.len() <= usize::MAX,
        forall|i: int| 0 <= i < g.nodes.len() ==> omega_free(#[trigger] g.nodes[i]),
        g.has(extend(ms)),
        net.can_fire(t, ms),
    ensures
        net.transitions[t].fits(ms),
        g.has(extend(net.transitions[t].fire(ms))),
{
    let s = extend(ms);
    let anc = lemma_node_children(net, m0, g, s);
    assert(ms.len() == m0.len());
    let a = net.transitions[t];
    assert(a.within(m0.len()));
    lemma_enabled_extend(a, ms);
    lemma_ext_enabled_upto(net, s, net.transitions.len());
    let ids = ext_enabled_ids(net, s);
    assert(ids.contains(TransitionId(t as usize)));
    let k = choose|k: int| 0 <= k < ids.len() && ids[k] == TransitionId(t as usize);
    assert(g.out(s) == km_children(net, s, anc));
    assert(g.out(s)[k].0 == TransitionId(t as usize));
    let y = g.out(s)[k].1;
    let i = g.index_of(s);
    assert(g.nodes[i] == s);
    assert(g.edges[i][k].1 == y);
    assert(g.has(y));
    let j = g.index_of(y);
    assert(g.nodes[j] == y);
    assert(omega_free(y));
    lemma_edge_finite(net, m0, g, ms, k);
    assert(ext_fits(a, g.nodes[i]));
    assert forall|p: int| 0 <= p < ms.len() implies #[trigger] a.fired_count(ms, p) <= usize::MAX by {
        assert(s[p] is Finite);
    };
}

/// In a coverability graph without `Omega`, every marking a run reaches from
/// a node is a node, and every firing along the way stays within `usize`.
proof fn lemma_free_run(net: NetView, m0: Seq<usize>, g: GraphView<Seq<ExtendedToken>>, ms: Seq<usize>, ts: Seq<TransitionId>)
    requires
        is_coverability_graph(net, m0, g),
        net.wf(),
        net.within(m0.len()),
        net.transitions.len() <= usize::MAX,
        forall|i: int| 0 <= i < g.nodes.len() ==> omega_free(#[trigger] g.nodes[i]),
        g.has(extend(ms)),
        net.run(ms, ts) is Some,
    ensures
        g.has(extend(net.run(ms, ts).unwrap())),
    decreases ts.len(),
{
    if ts.len() > 0 {
        let t = ts[0].0 as int;
        lemma_free_step(net, m0, g, ms, t);
        lemma_free_run(net, m0, g, net.transitions[t].fire(ms), ts.drop_first());
    }
}

/// The converse of [`lemma_omega_means_unbounded`], and more: when no node of
/// a coverability graph holds `Omega`, the net is bounded from `m0` (inhibitor
/// arcs or not). Every reachable marking is a node, so finitely many markings
/// are reachable, and every firing from one of them stays within `usize`.
pub proof fn lemma_omega_free_bounded(net: NetView, m0: Seq<usize>, g: GraphView<Seq<ExtendedToken>>)
    requires
        is_coverability_graph(net, m0, g),
        net.wf(),
        net.within(m0.len()),
        net.transitions.len() <= usize::MAX,
        forall|i: int| 0 <= i < g.nodes.len() ==> omega_free(#[trigger] g.nodes[i]),
    ensures
        forall|m: Seq<usize>| #[trigger] net.reachable(m0, m) ==> g.has(extend(m)),
        net.fits_from(m0),
        net.reachable_set(m0).finite(),
{
    assert(g.has(extend(m0))) by {
        assert(g.nodes[0] == extend(m0));
    };
    assert forall|m: Seq<usize>| #[trigger] net.reachable(m0, m) implies g.has(extend(m)) by {
        let ts = choose|ts: Seq<TransitionId>| #[trigger] net.run(m0, ts) == Some(m);
        lemma_free_run(net, m0, g, m0, ts);
    };
    assert forall|m: Seq<usize>, t: int| net.reachable(m0, m) && #[trigger] net.can_fire(t, m)
        implies #[trigger] net.transitions[t].fits(m) by {
        lemma_free_step(net, m0, g, m, t);
    };
    let n = m0.len();
    let bounds = Seq::new(n, |p: int| crate::boundedness::bound_of(g.nodes, p)->Bounded_0);
    assert forall|m: Seq<usize>| #[trigger] net.reachable(m0, m) implies within_bounds(bounds).contains(m) by {
        crate::net::lemma_run_len(net, m0, choose|ts: Seq<TransitionId>| #[trigger] net.run(m0, ts) == Some(m));
        let i = g.index_of(extend(m));
        assert(g.nodes[i] == extend(m));
        assert(m.len() == n);
        assert forall|p: int| 0 <= p < n implies #[trigger] m[p] <= bounds[p] by {
            crate::boundedness::lemma_bound_upto(g.nodes, p, g.nodes.len() as int);
            if crate::boundedness::bound_of(g.nodes, p) is Unbounded {
                let j = choose|j: int| 0 <= j < g.nodes.len() && #[trigger] g.nodes[j][p] == ExtendedToken::Omega;
                assert(omega_free(g.nodes[j]));
                assert(g.nodes[j].len() == n);
            }
            assert(g.nodes[i][p] == ExtendedToken::Finite(m[p]));
        };
    };
    lemma_within_bounds_finite(bounds);
    assert(net.reachable_set(m0).subset_of(within_bounds(bounds)));
    vstd::set_lib::lemma_set_subset_finite(within_bounds(bounds), net.reachable_set(m0));
}

/// Without inhibitor arcs, a run from a reachable marking also runs from any
/// reachable marking with `d` more tokens, and ends with `d` more tokens.
proof fn lemma_run_monotone(
    net: NetView,
    m0: Seq<usize>,
    m: Seq<usize>,
    d: Seq<int>,
    m2: Seq<usize>,
    ts: Seq<TransitionId>,
)
    requires
        net.wf(),
        net.within(m0.len()),
        no_inhibit(net),
        net.fits_from(m0),
        net.reachable(m0, m),
        net.reachable(m0, m2),
        m.len() == m0.len(),
        m2.len() == m.len(),
        d.len() == m.len(),
        forall|i: int| 0 <= i < m.len() ==> #[trigger] d[i] >= 0 && m2[i] == m[i] + d[i],
        net.run(m, ts) is Some,
    ensures
        net.run(m2, ts) is Some,
        net.run(m2, ts).unwrap().len() == m.len(),
        net.run(m, ts).unwrap().len() == m.len(),
        forall|i: int| 0 <= i < m.len() ==> #[trigger] net.run(m2, ts).unwrap()[i] == net.run(m, ts).unwrap()[i] + d[i],
    decreases ts.len(),
{
    if ts.len() > 0 {
        let t = ts[0];
        let a = net.transitions[t.0 as int];
        assert(net.can_fire(t.0 as int, m));
        assert(a.within(m0.len()));
        assert(forall|j: int| 0 <= j < a.inputs.len() ==> #[trigger] a.inputs[j].1 != ArcKind::Inhibit);
        assert forall|i: int| 0 <= i < m.len() implies m[i] <= #[trigger] m2[i] by {
            assert(d[i] >= 0 && m2[i] == m[i] + d[i]);
        };
        crate::net::lemma_enabled_monotone(a, m, m2);
        assert(net.can_fire(t.0 as int, m2));
        assert(a.fits(m));
        assert(a.fits(m2));
        assert(a.wf());
        let f = a.fire(m);
        let f2 = a.fire(m2);
        assert forall|i: int| 0 <= i < m.len() implies #[trigger] f2[i] == f[i] + d[i] by {
            lemma_consumed_bounded(a.inputs, m, i);
            lemma_consumed_bounded(a.inputs, m2, i);
            assert(a.fired_count(m, i) <= usize::MAX);
            assert(a.fired_count(m2, i) <= usize::MAX);
        };
        crate::net::lemma_reachable_step(net, m0, m, t);
        crate::net::lemma_reachable_step(net, m0, m2, t);
        lemma_run_monotone(net, m0, f, d, f2, ts.drop_first());
    }
}

/// Pumping: when a run leads from a reachable marking `c` to one with at
/// least as many tokens everywhere and more in place `p`, repeating it `j`
/// times reaches a marking with at least `j` more tokens in `p`.
proof fn lemma_pump(net: NetView, m0: Seq<usize>, c: Seq<usize>, ts: Seq<TransitionId>, p: int, j: nat)
    requires
        net.wf(),
        net.within(m0.len()),
        no_inhibit(net),
        net.fits_from(m0),
        net.reachable(m0, c),
        c.len() == m0.len(),
        net.run(c, ts) is Some,
        forall|i: int| 0 <= i < c.len() ==> c[i] <= #[trigger] net.run(c, ts).unwrap()[i],
        0 <= p < c.len(),
        c[p] < net.run(c, ts).unwrap()[p],
    ensures
        exists|m: Seq<usize>, e: Seq<int>| {
            &&& net.reachable(m0, m)
            &&& m.len() == c.len()
            &&& e.len() == c.len()
            &&& forall|i: int| 0 <= i < c.len() ==> #[trigger] e[i] >= 0 && m[i] == c[i] + e[i]
            &&& m[p] >= c[p] + j
        },
    decreases j,
{
    let mz = net.run(c, ts).unwrap();
    crate::net::lemma_run_len(net, c, ts);
    if j == 0 {
        let e = Seq::new(c.len(), |i: int| 0int);
        assert(forall|i: int| 0 <= i < c.len() ==> #[trigger] e[i] >= 0 && c[i] == c[i] + e[i]);
        assert({
            &&& net.reachable(m0, c)
            &&& c.len() == c.len()
            &&& e.len() == c.len()
            &&& forall|i: int| 0 <= i < c.len() ==> #[trigger] e[i] >= 0 && c[i] == c[i] + e[i]
            &&& c[p] >= c[p] + j
        });
    } else {
        lemma_pump(net, m0, c, ts, p, (j - 1) as nat);
        let (m, e) = choose|m: Seq<usize>, e: Seq<int>| {
            &&& net.reachable(m0, m)
            &&& m.len() == c.len()
            &&& e.len() == c.len()
            &&& forall|i: int| 0 <= i < c.len() ==> #[trigger] e[i] >= 0 && m[i] == c[i] + e[i]
            &&& m[p] >= c[p] + (j - 1)
        };
        lemma_run_monotone(net, m0, c, e, m, ts);
        let m2 = net.run(m, ts).unwrap();
        let ts0 = choose|q: Seq<TransitionId>| #[trigger] net.run(m0, q) == Some(m);
        crate::reach::lemma_run_concat(net, m0, ts0, ts);
        assert(net.run(m0, ts0 + ts) == Some(m2));
        let e2 = Seq::new(c.len(), |i: int| mz[i] - c[i] + e[i]);
        assert(forall|i: int| 0 <= i < c.len() ==> #[trigger] e2[i] >= 0 && m2[i] == c[i] + e2[i]);
        assert(m2[p] >= c[p] + j);
        assert(net.reachable(m0, m2));
        assert({
            &&& net.reachable(m0, m2)
            &&& m2.len() == c.len()
            &&& e2.len() == c.len()
            &&& forall|i: int| 0 <= i < c.len() ==> #[trigger] e2[i] >= 0 && m2[i] == c[i] + e2[i]
            &&& m2[p] >= c[p] + j
        });
    }
}

/// In a sequence that starts without `Omega` and ends with one, some element
/// without `Omega` is followed by one with.
proof fn lemma_first_omega(w: Seq<Seq<ExtendedToken>>) -> (f: int)
    requires
        w.len() >= 1,
        omega_free(w[0]),
        !omega_free(w.last()),
    ensures
        1 <= f < w.len(),
        omega_free(w[f - 1]),
        !omega_free(w[f]),
    decreases w.len(),
{
    if omega_free(w[w.len() - 2]) {
        w.len() - 1
    } else {
        let v = w.drop_last();
        assert(v.last() == w[w.len() - 2]);
        let f = lemma_first_omega(v);
        assert(v[f] == w[f] && v[f - 1] == w[f - 1]);
        f
    }
}

/// Along a walk of a coverability graph every `Omega` stays.
proof fn lemma_walk_keeps_omega(net: NetView, m0: Seq<usize>, g: GraphView<Seq<ExtendedToken>>, w: Seq<Seq<ExtendedToken>>, p: int)
    requires
        is_coverability_graph(net, m0, g),
        net.transitions.len() <= usize::MAX,
        w.len() >= 1,
        g.is_walk(w),
        g.has(w[0]),
        0 <= p < m0.len(),
        w[0][p] == ExtendedToken::Omega,
    ensures
        w.last()[p] == ExtendedToken::Omega,
    decreases w.len(),
{
    if w.len() > 1 {
        assert(g.step(w[0], w[1]));
        let k = choose|k: int| 0 <= k < g.out(w[0]).len() && #[trigger] g.out(w[0])[k].1 == w[1];
        let i = g.index_of(w[0]);
        assert(g.nodes[i] == w[0]);
        assert(w[0].len() == m0.len());
        lemma_edge_keeps_omega(net, m0, g, w[0], k, p);
        assert(g.has(g.edges[i][k].1));
        let v = w.drop_first();
        assert forall|j: int| #![trigger v[j]] 0 <= j < v.len() - 1 implies g.step(v[j], v[j + 1]) by {
            assert(g.step(w[j + 1], w[j + 2]));
        };
        lemma_walk_keeps_omega(net, m0, g, v, p);
    }
}

/// A walk of a coverability graph through nodes without `Omega`, from the
/// node standing for `c`, follows a run of the net from `c`.
proof fn lemma_walk_run(net: NetView, m0: Seq<usize>, g: GraphView<Seq<ExtendedToken>>, c: Seq<usize>, v: Seq<Seq<ExtendedToken>>)
    requires
        is_coverability_graph(net, m0, g),
        net.wf(),
        net.within(m0.len()),
        net.transitions.len() <= usize::MAX,
        g.walk_from(extend(c), v, v.last()),
        g.has(extend(c)),
        forall|i: int| 0 <= i < v.len() ==> omega_free(#[trigger] v[i]),
    ensures
        exists|ts: Seq<TransitionId>| #[trigger] net.run(c, ts) is Some && extend(net.run(c, ts).unwrap()) == v.last(),
    decreases v.len(),
{
    if v.len() == 1 {
        let e = Seq::<TransitionId>::empty();
        assert(net.run(c, e) == Some(c));
    } else {
        let u = v.drop_last();
        assert(g.walk_from(extend(c), u, u.last())) by {
            assert forall|i: int| #![trigger u[i]] 0 <= i < u.len() - 1 implies g.step(u[i], u[i + 1]) by {
                assert(g.step(v[i], v[i + 1]));
            };
        };
        assert forall|i: int| 0 <= i < u.len() implies omega_free(#[trigger] u[i]) by {
            assert(omega_free(v[i]));
        };
        lemma_walk_run(net, m0, g, c, u);
        let ts = choose|ts: Seq<TransitionId>| #[trigger] net.run(c, ts) is Some && extend(net.run(c, ts).unwrap()) == u.last();
        let mb = net.run(c, ts).unwrap();
        assert(u.last() == v[v.len() - 2]);
        assert(g.step(v[v.len() - 2], v[v.len() - 1]));
        let k = choose|k: int| 0 <= k < g.out(extend(mb)).len() && #[trigger] g.out(extend(mb))[k].1 == v.last();
        assert(g.has(extend(mb)));
        assert(omega_free(v[v.len() - 1]));
        lemma_edge_finite(net, m0, g, mb, k);
        let t = g.out(extend(mb))[k].0;
        crate::net::lemma_run_push(net, c, ts, t);
        assert(net.run(c, ts.push(t)) is Some);
    }
}

/// Two finite markings read as extended ones are equal only when they are.
proof fn lemma_extend_injective(a: Seq<usize>, b: Seq<usize>)
    requires
        extend(a) == extend(b),
    ensures
        a == b,
{
    assert(a.len() == extend(a).len());
    assert forall|i: int| 0 <= i < a.len() implies a[i] == b[i] by {
        assert(extend(a)[i] == ExtendedToken::Finite(a[i]));
        assert(extend(b)[i] == ExtendedToken::Finite(b[i]));
    };
    assert(a =~= b);
}

/// An `Omega` in a coverability graph means that the net's counts outgrow
/// every bound: when the net has no inhibitor arc and every firing from a
/// marking reachable from `m0` keeps the counts within `usize`, no node of any
/// coverability graph holds `Omega`. (The first `Omega` on a walk comes from
/// a firing sequence that leads from a reachable marking to one with at least
/// as many tokens everywhere and more somewhere; repeating it raises a count
/// past `usize::MAX`.)
pub proof fn lemma_omega_means_unbounded(net: NetView, m0: Seq<usize>, g: GraphView<Seq<ExtendedToken>>)
    requires
        is_coverability_graph(net, m0, g),
        net.wf(),
        net.within(m0.len()),
        net.transitions.len() <= usize::MAX,
        no_inhibit(net),
        net.fits_from(m0),
    ensures
        forall|i: int| 0 <= i < g.nodes.len() ==> omega_free(#[trigger] g.nodes[i]),
{
    assert forall|i: int| 0 <= i < g.nodes.len() implies omega_free(#[trigger] g.nodes[i]) by {
        assert(g.has(g.nodes[i]));
        lemma_node_omega_free(net, m0, g, g.nodes[i]);
    };
}

/// A node of a coverability graph of a net without inhibitor arcs whose
/// firings from reachable markings all fit holds no `Omega`.
proof fn lemma_node_omega_free(net: NetView, m0: Seq<usize>, g: GraphView<Seq<ExtendedToken>>, x: Seq<ExtendedToken>)
    requires
        is_coverability_graph(net, m0, g),
        net.wf(),
        net.within(m0.len()),
        net.transitions.len() <= usize::MAX,
        no_inhibit(net),
        net.fits_from(m0),
        g.has(x),
    ensures
        omega_free(x),
{
    if !omega_free(x) {
        lemma_first_omega_pumps(net, m0, g, x);
    }
}

/// The pumping argument behind [`lemma_node_omega_free`]: a node with `Omega`
/// leads to a reachable marking past `usize::MAX`.
#[verifier::spinoff_prover]
#[verifier::rlimit(50)]
proof fn lemma_first_omega_pumps(net: NetView, m0: Seq<usize>, g: GraphView<Seq<ExtendedToken>>, x: Seq<ExtendedToken>)
    requires
        is_coverability_graph(net, m0, g),
        net.wf(),
        net.within(m0.len()),
        net.transitions.len() <= usize::MAX,
        no_inhibit(net),
        net.fits_from(m0),
        g.has(x),
        !omega_free(x),
    ensures
        exists|m: Seq<usize>, q: int| net.reachable(m0, m) && 0 <= q < m.len() && m[q] > usize::MAX,
{
    let (ms, k) = lemma_first_omega_edge(net, m0, g, x);
    lemma_edge_pumps(net, m0, g, ms, k);
}

/// A node with `Omega` is reached through an edge from a node without `Omega`
/// standing for a reachable marking `ms` to one with.
proof fn lemma_first_omega_edge(net: NetView, m0: Seq<usize>, g: GraphView<Seq<ExtendedToken>>, x: Seq<ExtendedToken>) -> (r: (Seq<usize>, int))
    requires
        is_coverability_graph(net, m0, g),
        net.wf(),
        net.within(m0.len()),
        net.transitions.len() <= usize::MAX,
        g.has(x),
        !omega_free(x),
    ensures
        net.reachable(m0, r.0),
        g.has(extend(r.0)),
        0 <= r.1 < g.out(extend(r.0)).len(),
        !omega_free(g.out(extend(r.0))[r.1].1),
{
    let root = extend(m0);
    let wx = lemma_node_children(net, m0, g, x);
    assert(omega_free(root));
    let f = lemma_first_omega(wx);
    let s = wx[f - 1];
    let y = wx[f];
    assert(g.step(wx[f - 1], wx[f]));
    let k = choose|k: int| 0 <= k < g.out(s).len() && #[trigger] g.out(s)[k].1 == y;
    assert(g.has(s));
    // the node before the first Omega stands for a reachable marking
    let pre = wx.take(f);
    assert(g.walk_from(root, pre, s)) by {
        assert forall|i: int| #![trigger pre[i]] 0 <= i < pre.len() - 1 implies g.step(pre[i], pre[i + 1]) by {
            assert(g.step(wx[i], wx[i + 1]));
        };
    };
    lemma_walk_finite(net, m0, g, pre);
    let ms = choose|m: Seq<usize>| net.reachable(m0, m) && extend(m) == s;
    assert(g.out(s)[k].1 == y);
    (ms, k)
}

/// An edge from a node without `Omega` standing for the reachable marking
/// `ms` to a node with `Omega` comes from a firing sequence that can be
/// repeated to raise a count past `usize::MAX`.
#[verifier::spinoff_prover]
#[verifier::rlimit(50)]
proof fn lemma_edge_pumps(net: NetView, m0: Seq<usize>, g: GraphView<Seq<ExtendedToken>>, ms: Seq<usize>, k: int)
    requires
        is_coverability_graph(net, m0, g),
        net.wf(),
        net.within(m0.len()),
        net.transitions.len() <= usize::MAX,
        no_inhibit(net),
        net.fits_from(m0),
        net.reachable(m0, ms),
        g.has(extend(ms)),
        0 <= k < g.out(extend(ms)).len(),
        !omega_free(g.out(extend(ms))[k].1),
    ensures
        exists|m: Seq<usize>, q: int| net.reachable(m0, m) && 0 <= q < m.len() && m[q] > usize::MAX,
{
    let root = extend(m0);
    let s = extend(ms);
    let y = g.out(s)[k].1;
    // the edge from s
    let anc = lemma_node_children(net, m0, g, s);
    lemma_ext_enabled_upto(net, s, net.transitions.len());
    let t = ext_enabled_ids(net, s)[k];
    let a = net.transitions[t.0 as int];
    let z = ext_fire(a, s);
    assert(y == widen(z, anc));
    assert(ms.len() == m0.len());
    assert(a.within(m0.len()));
    lemma_enabled_extend(a, ms);
    assert(net.can_fire(t.0 as int, ms));
    assert(a.fits(ms));
    assert(a.wf());
    assert forall|p: int| 0 <= p < ms.len() implies #[trigger] a.fired_count(ms, p) >= 0 by {
        lemma_consumed_bounded(a.inputs, ms, p);
    };
    let mz = a.fire(ms);
    assert(extend(mz) =~= z);
    // every ancestor of s is without Omega
    assert forall|q: int| 0 <= q < anc.len() implies omega_free(#[trigger] anc[q]) by {
        if !omega_free(anc[q]) {
            let p = choose|p: int| 0 <= p < anc[q].len() && !(#[trigger] anc[q][p] is Finite);
            let rest = anc.skip(q);
            assert(rest[0] == anc[q]);
            assert(rest.last() == s);
            assert forall|j: int| #![trigger rest[j]] 0 <= j < rest.len() - 1 implies g.step(rest[j], rest[j + 1]) by {
                assert(g.step(anc[q + j], anc[q + j + 1]));
            };
            assert(g.has(anc[q])) by {
                if q < anc.len() - 1 {
                    assert(g.step(anc[q], anc[q + 1]));
                } else {
                    assert(anc[q] == s);
                }
            };
            lemma_walk_keeps_omega(net, m0, g, rest, p);
        }
    };
    // the first widening step that brings in Omega
    let ws = Seq::new((anc.len() + 1) as nat, |i: int| widen(z, anc.take(i)));
    assert(anc.take(0) =~= Seq::<Seq<ExtendedToken>>::empty());
    assert(ws[0] == z);
    assert(anc.take(anc.len() as int) =~= anc);
    assert(ws.last() == y);
    let f2 = lemma_first_omega(ws);
    let i2 = f2 - 1;
    assert forall|q: int| 0 <= q < anc.take(i2).len() implies (#[trigger] anc.take(i2)[q]).len() == z.len() by {
        assert(anc.take(i2)[q] == anc[q]);
    };
    lemma_widen_free(z, anc.take(i2));
    assert(anc.take(f2).drop_last() =~= anc.take(i2));
    assert(anc.take(f2).last() == anc[i2]);
    let h = anc[i2];
    assert(ws[f2] == widen_step(z, h));
    assert(dominates(z, h));
    // the ancestor stands for a reachable marking c, and a run leads from c to mz
    let hw = anc.take(i2 + 1);
    assert(g.walk_from(root, hw, h)) by {
        assert forall|i: int| #![trigger hw[i]] 0 <= i < hw.len() - 1 implies g.step(hw[i], hw[i + 1]) by {
            assert(g.step(anc[i], anc[i + 1]));
        };
    };
    assert(omega_free(h));
    lemma_walk_finite(net, m0, g, hw);
    let c = choose|m: Seq<usize>| net.reachable(m0, m) && extend(m) == h;
    let seg = anc.skip(i2);
    assert(g.walk_from(extend(c), seg, seg.last())) by {
        assert forall|i: int| #![trigger seg[i]] 0 <= i < seg.len() - 1 implies g.step(seg[i], seg[i + 1]) by {
            assert(g.step(anc[i2 + i], anc[i2 + i + 1]));
        };
    };
    assert(seg.last() == s);
    assert(g.has(h)) by {
        if i2 < anc.len() - 1 {
            assert(g.step(anc[i2], anc[i2 + 1]));
        } else {
            assert(anc[i2] == s);
        }
    };
    assert forall|i: int| 0 <= i < seg.len() implies omega_free(#[trigger] seg[i]) by {
        assert(seg[i] == anc[i2 + i]);
    };
    lemma_walk_run(net, m0, g, c, seg);
    let ts0 = choose|ts: Seq<TransitionId>| #[trigger] net.run(c, ts) is Some && extend(net.run(c, ts).unwrap()) == seg.last();
    lemma_extend_injective(net.run(c, ts0).unwrap(), ms);
    crate::net::lemma_run_push(net, c, ts0, t);
    let ts = ts0.push(t);
    assert(net.run(c, ts) == Some(mz));
    assert(c.len() == m0.len());
    assert forall|i: int| 0 <= i < c.len() implies c[i] <= #[trigger] mz[i] by {
        assert(!token_lt(z[i], h[i]));
        assert(z[i] == ExtendedToken::Finite(mz[i]));
        assert(h[i] == ExtendedToken::Finite(c[i]));
    };
    let p = choose|p: int| 0 <= p < c.len() && token_lt(h[p], #[trigger] z[p]);
    assert(z[p] == ExtendedToken::Finite(mz[p]));
    assert(h[p] == ExtendedToken::Finite(c[p]));
    lemma_pump(net, m0, c, ts, p, (usize::MAX + 1) as nat);
    let (m, e) = choose|m: Seq<usize>, e: Seq<int>| {
        &&& net.reachable(m0, m)
        &&& m.len() == c.len()
        &&& e.len() == c.len()
        &&& forall|i: int| 0 <= i < c.len() ==> #[trigger] e[i] >= 0 && m[i] == c[i] + e[i]
        &&& m[p] >= c[p] + (usize::MAX + 1)
    };
    assert(net.reachable(m0, m) && 0 <= p < m.len() && m[p] > usize::MAX);
}

} // verus!
