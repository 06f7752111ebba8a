use vstd::prelude::*;

use crate::coverability::{
    coverability_graph, covers, extend, is_coverability_graph, km_fits,
    lemma_coverability_covers, lemma_finite_node_reachable, lemma_omega_means_unbounded, no_inhibit, omega_free, token_le, ExtendedMarking, ExtendedToken,
};
use crate::graph::{Graph, GraphView};
use crate::marking::Marking;
use crate::net::{NetView, PetriNet};

verus! {

/// How many tokens a place can hold.
#[derive(Clone, Copy, PartialEq, Eq, Debug, Structural)]
pub enum Boundedness {
    /// At most this many tokens were seen there.
    Bounded(usize),
    Unbounded,
}

impl Boundedness {
    /// A place is safe when it is 1-bounded: it never holds more than one token.
    pub fn is_safe(&self) -> (b: bool)
        ensures
            b == (*self matches Boundedness::Bounded(k) && k <= 1),
    {
        match self {
            Boundedness::Bounded(k) => *k <= 1,
            Boundedness::Unbounded => false,
        }
    }
}

/// Folds one more count into a bound: `Omega` makes it unbounded, a finite count raises it.
pub open spec fn bound_step(acc: Boundedness, t: ExtendedToken) -> Boundedness {
    match (acc, t) {
        (Boundedness::Unbounded, _) => Boundedness::Unbounded,
        (_, ExtendedToken::Omega) => Boundedness::Unbounded,
        (Boundedness::Bounded(k), ExtendedToken::Finite(n)) => Boundedness::Bounded(if k >= n { k } else { n }),
    }
}

/// Boundedness of place `p` over the first `i` of `nodes`.
pub open spec fn bound_upto(nodes: Seq<Seq<ExtendedToken>>, p: int, i: int) -> Boundedness
    decreases i,
{
    if i <= 0 {
        Boundedness::Bounded(0)
    } else {
        bound_step(bound_upto(nodes, p, i - 1), nodes[i - 1][p])
    }
}

/// Boundedness of place `p` over all of `nodes`.
pub open spec fn bound_of(nodes: Seq<Seq<ExtendedToken>>, p: int) -> Boundedness {
    bound_upto(nodes, p, nodes.len() as int)
}

/// `bound_upto` is unbounded exactly when some node has `Omega` at `p`, and
/// otherwise bounds every count at `p`.
pub proof fn lemma_bound_upto(nodes: Seq<Seq<ExtendedToken>>, p: int, i: int)
    requires
        0 <= i <= nodes.len(),
    ensures
        (bound_upto(nodes, p, i) == Boundedness::Unbounded)
            <==> exists|j: int| 0 <= j < i && #[trigger] nodes[j][p] == ExtendedToken::Omega,
        bound_upto(nodes, p, i) is Bounded ==> forall|j: int| 0 <= j < i
            ==> (#[trigger] nodes[j][p] matches ExtendedToken::Finite(x) && x <= bound_upto(nodes, p, i)->Bounded_0),
    decreases i,
{
    if i > 0 {
        lemma_bound_upto(nodes, p, i - 1);
        if nodes[i - 1][p] == ExtendedToken::Omega {
            assert(nodes[i - 1][p] == ExtendedToken::Omega);
        }
    }
}

/// Boundedness of every place of `net`, over the Karp-Miller coverability graph
/// from `initial_marking`, indexed by place: a place is `Unbounded` if `Omega`
/// appears there in some node of the graph, and otherwise bounded by the most
/// tokens any node has there. A net is bounded (safe) when every place is.
///
/// When the net has no inhibitor arc, a `Bounded(k)` place really holds at most
/// `k` tokens in every reachable marking; when every place is bounded, each
/// bound is reached; and a place rated `Unbounded` means that the counts
/// outgrow `usize` (some firing from a reachable marking exceeds it).
pub fn boundedness_report(net: &PetriNet, initial_marking: &Marking) -> (r: Vec<Boundedness>)
    requires
        net.wf(),
        net@.within(initial_marking@.len()),
        net@.places <= initial_marking@.len(),
        km_fits(net@, extend(initial_marking@)),
    ensures
        r@.len() == net@.places,
        exists|g: GraphView<Seq<ExtendedToken>>| #[trigger] is_coverability_graph(net@, initial_marking@, g)
            && forall|p: int| 0 <= p < r@.len() ==> #[trigger] r@[p] == bound_of(g.nodes, p),
        no_inhibit(net@) && net@.fits_from(initial_marking@) ==> forall|p: int, m: Seq<usize>|
            0 <= p < r@.len() && #[trigger] r@[p] is Bounded && #[trigger] net@.reachable(initial_marking@, m)
                ==> m[p] <= r@[p]->Bounded_0,
        initial_marking@.len() == net@.places && (forall|p: int| 0 <= p < r@.len() ==> #[trigger] r@[p] is Bounded)
            ==> forall|p: int| 0 <= p < r@.len() ==> count_reached(net@, initial_marking@, p, (#[trigger] r@[p])->Bounded_0),
        no_inhibit(net@) && (exists|p: int| 0 <= p < r@.len() && #[trigger] r@[p] is Unbounded)
            ==> !net@.fits_from(initial_marking@),
        no_inhibit(net@) && net@.fits_from(initial_marking@) ==> forall|p: int| 0 <= p < r@.len()
            ==> #[trigger] r@[p] is Bounded && count_reached(net@, initial_marking@, p, r@[p]->Bounded_0),
{
    let graph = coverability_graph(net, initial_marking);
    boundedness_in(net, initial_marking, &graph)
}

/// [`boundedness_report`] on the coverability graph `graph` of `net` from `initial_marking`.
pub fn boundedness_in(net: &PetriNet, initial_marking: &Marking, graph: &Graph<ExtendedMarking>) -> (r: Vec<Boundedness>)
    requires
        net.wf(),
        net@.within(initial_marking@.len()),
        net@.places <= initial_marking@.len(),
        graph.wf(),
        is_coverability_graph(net@, initial_marking@, graph@),
    ensures
        r@.len() == net@.places,
        forall|p: int| 0 <= p < r@.len() ==> #[trigger] r@[p] == bound_of(graph@.nodes, p),
        no_inhibit(net@) && net@.fits_from(initial_marking@) ==> forall|p: int, m: Seq<usize>|
            0 <= p < r@.len() && #[trigger] r@[p] is Bounded && #[trigger] net@.reachable(initial_marking@, m)
                ==> m[p] <= r@[p]->Bounded_0,
        initial_marking@.len() == net@.places && (forall|p: int| 0 <= p < r@.len() ==> #[trigger] r@[p] is Bounded)
            ==> forall|p: int| 0 <= p < r@.len() ==> count_reached(net@, initial_marking@, p, (#[trigger] r@[p])->Bounded_0),
        no_inhibit(net@) && (exists|p: int| 0 <= p < r@.len() && #[trigger] r@[p] is Unbounded)
            ==> !net@.fits_from(initial_marking@),
        no_inhibit(net@) && net@.fits_from(initial_marking@) ==> forall|p: int| 0 <= p < r@.len()
            ==> #[trigger] r@[p] is Bounded && count_reached(net@, initial_marking@, p, r@[p]->Bounded_0),
{
    let places = net.place_count();
    let mut r: Vec<Boundedness> = Vec::new();
    let mut p: usize = 0;
    while p < places
        invariant
            places == net@.places,
            places <= initial_marking@.len(),
            graph.wf(),
            is_coverability_graph(net@, initial_marking@, graph@),
            p <= places,
            r@.len() == p,
            forall|q: int| 0 <= q < p ==> #[trigger] r@[q] == bound_of(graph@.nodes, q),
        decreases places - p,
    {
        let mut acc = Boundedness::Bounded(0);
        let n = graph.len();
        let mut i: usize = 0;
        while i < n
            invariant
                n == graph@.nodes.len(),
                is_coverability_graph(net@, initial_marking@, graph@),
                p < initial_marking@.len(),
                i <= n,
                acc == bound_upto(graph@.nodes, p as int, i as int),
            decreases n - i,
        {
            let key = graph.key(i);
            proof {
                assert(graph@.nodes[i as int].len() == initial_marking@.len());
            }
            let t = key.tokens(crate::net::PlaceId(p));
            acc = match (acc, t) {
                (Boundedness::Unbounded, _) | (_, ExtendedToken::Omega) => Boundedness::Unbounded,
                (Boundedness::Bounded(k), ExtendedToken::Finite(c)) => Boundedness::Bounded(if k >= c { k } else { c }),
            };
            i += 1;
        }
        r.push(acc);
        p += 1;
    }
    proof {
        net.lemma_wf();
        if initial_marking@.len() == net@.places && (forall|p: int| 0 <= p < r@.len() ==> #[trigger] r@[p] is Bounded) {
            assert forall|p: int| 0 <= p < r@.len() implies count_reached(net@, initial_marking@, p, (#[trigger] r@[p])->Bounded_0) by {
                assert forall|q: int| 0 <= q < initial_marking@.len() implies #[trigger] bound_of(graph@.nodes, q) is Bounded by {
                    assert(r@[q] is Bounded);
                };
                lemma_precise_bounds(net@, initial_marking@, graph@, p);
                assert(r@[p] == bound_of(graph@.nodes, p));
            };
        }
        if no_inhibit(net@) && net@.fits_from(initial_marking@) {
            lemma_omega_means_unbounded(net@, initial_marking@, graph@);
            assert forall|p: int| 0 <= p < r@.len() implies #[trigger] r@[p] is Bounded
                && count_reached(net@, initial_marking@, p, r@[p]->Bounded_0) by {
                lemma_bounds_exact(net@, initial_marking@, graph@, p);
            };
            assert forall|p: int| 0 <= p < r@.len() implies !(#[trigger] r@[p] is Unbounded) by {
                lemma_bound_upto(graph@.nodes, p, graph@.nodes.len() as int);
                if r@[p] is Unbounded {
                    let j = choose|j: int| 0 <= j < graph@.nodes.len() && #[trigger] graph@.nodes[j][p] == ExtendedToken::Omega;
                    assert(omega_free(graph@.nodes[j]));
                    assert(graph@.nodes[j].len() == initial_marking@.len());
                }
            };
            assert forall|q: int, m: Seq<usize>|
                0 <= q < r@.len() && #[trigger] r@[q] is Bounded && #[trigger] net@.reachable(initial_marking@, m)
                implies m[q] <= r@[q]->Bounded_0 by {
                lemma_coverability_covers(net@, initial_marking@, graph@, m);
                let i = choose|i: int| 0 <= i < graph@.nodes.len() && covers(#[trigger] graph@.nodes[i], m);
                lemma_bound_upto(graph@.nodes, q, graph@.nodes.len() as int);
                assert(graph@.nodes[i][q] matches ExtendedToken::Finite(x) && x <= r@[q]->Bounded_0);
                assert(token_le(ExtendedToken::Finite(m[q]), graph@.nodes[i][q]));
            };
        }
    }
    r
}

/// Some marking reachable from `m0` holds exactly `k` tokens in place `p`.
pub open spec fn count_reached(net: NetView, m0: Seq<usize>, p: int, k: usize) -> bool {
    exists|m: Seq<usize>| net.reachable(m0, m) && m[p] == k
}

/// A bound over at least one node is the count of one of them.
proof fn lemma_bound_attained(nodes: Seq<Seq<ExtendedToken>>, p: int, i: int)
    requires
        0 < i <= nodes.len(),
        bound_upto(nodes, p, i) is Bounded,
    ensures
        exists|j: int| 0 <= j < i && #[trigger] nodes[j][p] == ExtendedToken::Finite(bound_upto(nodes, p, i)->Bounded_0),
    decreases i,
{
    let prev = bound_upto(nodes, p, i - 1);
    if i > 1 && prev is Bounded {
        lemma_bound_attained(nodes, p, i - 1);
    }
    if i > 1 && prev is Unbounded {
        assert(bound_upto(nodes, p, i) is Unbounded);
    }
}

/// When no node of a coverability graph holds `Omega`, every place is
/// bounded and its bound is reached: some marking reachable from `m0` holds
/// exactly that many tokens there. When moreover the net has no inhibitor arc,
/// no reachable marking holds more, so the bound is the most tokens the place
/// ever holds.
pub proof fn lemma_bound_is_max(net: NetView, m0: Seq<usize>, g: GraphView<Seq<ExtendedToken>>, p: int)
    requires
        is_coverability_graph(net, m0, g),
        net.wf(),
        net.within(m0.len()),
        net.transitions.len() <= usize::MAX,
        forall|i: int| 0 <= i < g.nodes.len() ==> omega_free(#[trigger] g.nodes[i]),
        0 <= p < m0.len(),
    ensures
        bound_of(g.nodes, p) is Bounded,
        count_reached(net, m0, p, bound_of(g.nodes, p)->Bounded_0),
        no_inhibit(net) && net.fits_from(m0) ==> forall|m: Seq<usize>|
            #[trigger] net.reachable(m0, m) ==> m[p] <= bound_of(g.nodes, p)->Bounded_0,
{
    let n = g.nodes.len() as int;
    lemma_bound_upto(g.nodes, p, n);
    if bound_of(g.nodes, p) is Unbounded {
        let j = choose|j: int| 0 <= j < n && #[trigger] g.nodes[j][p] == ExtendedToken::Omega;
        assert(omega_free(g.nodes[j]));
        assert(g.nodes[j].len() == m0.len());
    }
    lemma_bound_attained(g.nodes, p, n);
    let j = choose|j: int| 0 <= j < n && #[trigger] g.nodes[j][p] == ExtendedToken::Finite(bound_of(g.nodes, p)->Bounded_0);
    assert(g.has(g.nodes[j]));
    assert(omega_free(g.nodes[j]));
    lemma_finite_node_reachable(net, m0, g, g.nodes[j]);
    let m = choose|m: Seq<usize>| net.reachable(m0, m) && extend(m) == g.nodes[j];
    assert(m.len() == m0.len());
    assert(extend(m)[p] == ExtendedToken::Finite(m[p]));
    if no_inhibit(net) && net.fits_from(m0) {
        assert forall|m2: Seq<usize>| #[trigger] net.reachable(m0, m2) implies m2[p] <= bound_of(g.nodes, p)->Bounded_0 by {
            lemma_coverability_covers(net, m0, g, m2);
            let i = choose|i: int| 0 <= i < g.nodes.len() && covers(#[trigger] g.nodes[i], m2);
            assert(g.nodes[i][p] matches ExtendedToken::Finite(x) && x <= bound_of(g.nodes, p)->Bounded_0);
            assert(token_le(ExtendedToken::Finite(m2[p]), g.nodes[i][p]));
        };
    }
}

/// When every place of a coverability graph is bounded, so is every count of
/// every node, and each bound is the most tokens a reachable marking holds there.
pub proof fn lemma_precise_bounds(av: NetView, at: Seq<usize>, g: GraphView<Seq<ExtendedToken>>, i: int)
    requires
        is_coverability_graph(av, at, g),
        av.wf(),
        av.within(at.len()),
        av.transitions.len() <= usize::MAX,
        forall|p: int| 0 <= p < at.len() ==> #[trigger] bound_of(g.nodes, p) is Bounded,
        0 <= i < at.len(),
    ensures
        count_reached(av, at, i, bound_of(g.nodes, i)->Bounded_0),
        no_inhibit(av) && av.fits_from(at) ==> forall|m: Seq<usize>|
            #[trigger] av.reachable(at, m) ==> m[i] <= bound_of(g.nodes, i)->Bounded_0,
{
    lemma_bounded_free(av, at, g);
    lemma_bound_is_max(av, at, g, i);
}

/// When every place of a coverability graph is bounded, no node holds `Omega`.
pub proof fn lemma_bounded_free(av: NetView, at: Seq<usize>, g: GraphView<Seq<ExtendedToken>>)
    requires
        is_coverability_graph(av, at, g),
        forall|p: int| 0 <= p < at.len() ==> #[trigger] bound_of(g.nodes, p) is Bounded,
    ensures
        forall|j: int| 0 <= j < g.nodes.len() ==> omega_free(#[trigger] g.nodes[j]),
{
    assert forall|j: int| 0 <= j < g.nodes.len() implies omega_free(#[trigger] g.nodes[j]) by {
        assert forall|p: int| 0 <= p < g.nodes[j].len() implies #[trigger] g.nodes[j][p] is Finite by {
            assert(g.nodes[j].len() == at.len());
            lemma_bound_upto(g.nodes, p, g.nodes.len() as int);
            assert(bound_of(g.nodes, p) is Bounded);
            if g.nodes[j][p] == ExtendedToken::Omega {
                assert(bound_upto(g.nodes, p, g.nodes.len() as int) == Boundedness::Unbounded);
            }
        };
    };
}

/// With no inhibitor arc, and every firing from a reachable marking keeping
/// the counts within `usize`, every place is bounded on a coverability graph
/// and its bound is the most tokens it ever holds: some reachable marking
/// holds that many, none holds more. (A place rated unbounded thus means that
/// the counts outgrow `usize`, see [`lemma_omega_means_unbounded`].)
pub proof fn lemma_bounds_exact(net: NetView, m0: Seq<usize>, g: GraphView<Seq<ExtendedToken>>, p: int)
    requires
        is_coverability_graph(net, m0, g),
        net.wf(),
        net.within(m0.len()),
        net.transitions.len() <= usize::MAX,
        no_inhibit(net),
        net.fits_from(m0),
        0 <= p < m0.len(),
    ensures
        bound_of(g.nodes, p) is Bounded,
        count_reached(net, m0, p, bound_of(g.nodes, p)->Bounded_0),
        forall|m: Seq<usize>| #[trigger] net.reachable(m0, m) ==> m[p] <= bound_of(g.nodes, p)->Bounded_0,
{
    lemma_omega_means_unbounded(net, m0, g);
    lemma_bound_is_max(net, m0, g, p);
}

/// When no node of a coverability graph holds `Omega`, the bound it gives
/// each place is the most tokens a reachable marking holds there.
pub proof fn lemma_free_bound_is_max(net: NetView, m0: Seq<usize>, g: GraphView<Seq<ExtendedToken>>, p: int)
    requires
        is_coverability_graph(net, m0, g),
        net.wf(),
        net.within(m0.len()),
        net.transitions.len() <= usize::MAX,
        forall|i: int| 0 <= i < g.nodes.len() ==> omega_free(#[trigger] g.nodes[i]),
        0 <= p < m0.len(),
    ensures
        bound_of(g.nodes, p) is Bounded,
        count_reached(net, m0, p, bound_of(g.nodes, p)->Bounded_0),
        forall|m: Seq<usize>| #[trigger] net.reachable(m0, m) ==> m[p] <= bound_of(g.nodes, p)->Bounded_0,
{
    lemma_bound_is_max(net, m0, g, p);
    crate::coverability::lemma_omega_free_bounded(net, m0, g);
    lemma_bound_upto(g.nodes, p, g.nodes.len() as int);
    assert forall|m: Seq<usize>| #[trigger] net.reachable(m0, m) implies m[p] <= bound_of(g.nodes, p)->Bounded_0 by {
        assert(g.has(extend(m)));
        let i = g.index_of(extend(m));
        assert(g.nodes[i] == extend(m));
        assert(g.nodes[i].len() == m0.len());
        assert(extend(m)[p] == ExtendedToken::Finite(m[p]));
    };
}

/// Any two coverability graphs of a net from one marking agree on what they
/// say of boundedness. Without inhibitor arcs, one holds `Omega` exactly when
/// the other does (exactly when some firing from a reachable marking leaves
/// `usize`); and when neither does, they give every place the same bound.
pub proof fn lemma_graphs_agree(net: NetView, m0: Seq<usize>, g1: GraphView<Seq<ExtendedToken>>, g2: GraphView<Seq<ExtendedToken>>)
    requires
        is_coverability_graph(net, m0, g1),
        is_coverability_graph(net, m0, g2),
        net.wf(),
        net.within(m0.len()),
        net.transitions.len() <= usize::MAX,
    ensures
        no_inhibit(net) ==> ((forall|i: int| 0 <= i < g1.nodes.len() ==> omega_free(#[trigger] g1.nodes[i]))
            <==> (forall|i: int| 0 <= i < g2.nodes.len() ==> omega_free(#[trigger] g2.nodes[i]))),
        (forall|i: int| 0 <= i < g1.nodes.len() ==> omega_free(#[trigger] g1.nodes[i]))
            && (forall|i: int| 0 <= i < g2.nodes.len() ==> omega_free(#[trigger] g2.nodes[i]))
            ==> forall|p: int| 0 <= p < m0.len() ==> #[trigger] bound_of(g1.nodes, p) == bound_of(g2.nodes, p),
{
    let free1 = forall|i: int| 0 <= i < g1.nodes.len() ==> omega_free(#[trigger] g1.nodes[i]);
    let free2 = forall|i: int| 0 <= i < g2.nodes.len() ==> omega_free(#[trigger] g2.nodes[i]);
    if no_inhibit(net) {
        if free1 {
            crate::coverability::lemma_omega_free_bounded(net, m0, g1);
            lemma_omega_means_unbounded(net, m0, g2);
        }
        if free2 {
            crate::coverability::lemma_omega_free_bounded(net, m0, g2);
            lemma_omega_means_unbounded(net, m0, g1);
        }
    }
    if free1 && free2 {
        assert forall|p: int| 0 <= p < m0.len() implies #[trigger] bound_of(g1.nodes, p) == bound_of(g2.nodes, p) by {
            lemma_free_bound_is_max(net, m0, g1, p);
            lemma_free_bound_is_max(net, m0, g2, p);
            let k1 = bound_of(g1.nodes, p)->Bounded_0;
            let k2 = bound_of(g2.nodes, p)->Bounded_0;
            let m1 = choose|m: Seq<usize>| net.reachable(m0, m) && m[p] == k1;
            let m2 = choose|m: Seq<usize>| net.reachable(m0, m) && m[p] == k2;
            assert(m1[p] <= k2);
            assert(m2[p] <= k1);
        };
    }
}

} // verus!
