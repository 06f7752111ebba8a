use vstd::prelude::*;

use crate::graph::{views, Graph, GraphView, State};
use crate::liveness::can_reach;
use crate::coverability::{coverability_graph, extend, is_coverability_graph, km_fits, ExtendedMarking, ExtendedToken};
use crate::marking::{ByMarking, Marking};
use crate::net::{lemma_reachable_self, NetView, PetriNet};
use crate::reach::{
    is_reachability_graph, lemma_node_reachable, lemma_out_node, lemma_reachable_reaches, lemma_reaches_reachable,
};

verus! {

/// Every node of `g` reaches `c`.
pub open spec fn home_in<V>(g: GraphView<V>, c: V) -> bool {
    forall|i: int| 0 <= i < g.nodes.len() ==> #[trigger] g.reaches(g.nodes[i], c)
}

/// `h` is a home state of `net` from `m0`: it is reachable, and it can be
/// reached again from every reachable marking.
pub open spec fn is_home(net: NetView, m0: Seq<usize>, h: Seq<usize>) -> bool {
    &&& net.reachable(m0, h)
    &&& forall|m: Seq<usize>| #[trigger] net.reachable(m0, m) ==> net.reachable(m, h)
}

/// `net` is reversible from `m0`: from every reachable marking a firing
/// sequence leads back to `m0`.
pub open spec fn reversible(net: NetView, m0: Seq<usize>) -> bool {
    forall|m: Seq<usize>| #[trigger] net.reachable(m0, m) ==> net.reachable(m, m0)
}

/// Whether every node of `graph` can reach `candidate`: wherever one wanders
/// in the graph, one can always get back to it.
pub fn is_home_state<M: State>(graph: &Graph<M>, candidate: &M) -> (b: bool)
    requires
        graph.wf(),
    ensures
        b == home_in(graph@, candidate@),
{
    let ghost g = graph@;
    let n = graph.len();
    let mut i: usize = 0;
    while i < n
        invariant
            graph.wf(),
            g == graph@,
            n == g.nodes.len(),
            i <= n,
            forall|j: int| 0 <= j < i ==> #[trigger] g.reaches(g.nodes[j], candidate@),
        decreases n - i,
    {
        if !can_reach(graph, graph.key(i), candidate) {
            return false;
        }
        i += 1;
    }
    true
}

/// On the reachability graph, a node is a home state of the graph exactly when
/// it is a home state of the net.
pub proof fn lemma_home_in_net(g: GraphView<Seq<usize>>, net: NetView, m0: Seq<usize>, c: Seq<usize>)
    requires
        is_reachability_graph(g, net, m0),
        net.transitions.len() <= usize::MAX,
        net.reachable(m0, c),
    ensures
        home_in(g, c) == is_home(net, m0, c),
{
    if home_in(g, c) {
        assert forall|m: Seq<usize>| #[trigger] net.reachable(m0, m) implies net.reachable(m, c) by {
            lemma_out_node(g, net, m0, m);
            let i = g.index_of(m);
            assert(g.reaches(g.nodes[i], c));
            lemma_reaches_reachable(g, net, m0, m, c);
        };
    }
    if is_home(net, m0, c) {
        assert forall|i: int| 0 <= i < g.nodes.len() implies #[trigger] g.reaches(g.nodes[i], c) by {
            assert(g.has(g.nodes[i]));
            lemma_node_reachable(g, net, m0, g.nodes[i]);
            lemma_reachable_reaches(g, net, m0, g.nodes[i], c);
        };
    }
}

/// Whether `net` is reversible from `initial_marking`: from every reachable
/// marking one can get back to it, i.e. it is itself a home state. Only defined
/// when finitely many markings are reachable and no count exceeds `usize`.
pub fn is_reversible(net: &PetriNet, initial_marking: &Marking) -> (b: bool)
    requires
        net.wf(),
        net@.within(initial_marking@.len()),
        net@.reachable_set(initial_marking@).finite(),
        net@.fits_from(initial_marking@),
    ensures
        b == reversible(net@, initial_marking@),
{
    let graph = net.reachable_markings(initial_marking);
    let b = is_home_state(&graph, initial_marking);
    proof {
        net.lemma_wf();
        lemma_reachable_self(net@, initial_marking@);
        lemma_home_in_net(graph@, net@, initial_marking@, initial_marking@);
    }
    b
}

/// The home states of the net from `initial_marking`, in the order the
/// reachability graph holds them.
fn home_states_found(net: &PetriNet, initial_marking: &Marking) -> (r: Vec<Marking>)
    requires
        net.wf(),
        net@.within(initial_marking@.len()),
        net@.reachable_set(initial_marking@).finite(),
        net@.fits_from(initial_marking@),
    ensures
        views(r@).no_duplicates(),
        forall|h: Seq<usize>| views(r@).contains(h) <==> is_home(net@, initial_marking@, h),
{
    let ghost m0 = initial_marking@;
    let ghost nv = net@;
    let graph = net.reachable_markings(initial_marking);
    let ghost g = graph@;
    proof {
        net.lemma_wf();
    }
    let n = graph.len();
    let mut r: Vec<Marking> = Vec::new();
    let mut i: usize = 0;
    while i < n
        invariant
            graph.wf(),
            g == graph@,
            nv == net@,
            m0 == initial_marking@,
            is_reachability_graph(g, nv, m0),
            nv.transitions.len() <= usize::MAX,
            n == g.nodes.len(),
            i <= n,
            views(r@).no_duplicates(),
            forall|h: Seq<usize>| views(r@).contains(h) <==> exists|j: int| 0 <= j < i && #[trigger] g.nodes[j] == h && is_home(nv, m0, h),
        decreases n - i,
    {
        let candidate = graph.key(i);
        let home = is_home_state(&graph, candidate);
        proof {
            assert(g.has(candidate@));
            lemma_node_reachable(g, nv, m0, candidate@);
            lemma_home_in_net(g, nv, m0, candidate@);
        }
        if home {
            let ghost prev = r@;
            r.push(candidate.duplicate());
            proof {
                assert(views(r@) =~= views(prev).push(g.nodes[i as int]));
                assert forall|a: int, b: int| 0 <= a < b < views(r@).len() implies views(r@)[a] != views(r@)[b] by {
                    if b == views(r@).len() - 1 {
                        if views(r@)[a] == views(r@)[b] {
                            assert(views(prev).contains(g.nodes[i as int]));
                            let j = choose|j: int| 0 <= j < i && #[trigger] g.nodes[j] == g.nodes[i as int] && is_home(nv, m0, g.nodes[i as int]);
                            assert(g.nodes.no_duplicates());
                        }
                    }
                };
                assert forall|h: Seq<usize>| views(r@).contains(h) <==> exists|j: int| 0 <= j < i + 1 && #[trigger] g.nodes[j] == h && is_home(nv, m0, h) by {
                    if views(r@).contains(h) {
                        let a = choose|a: int| 0 <= a < views(r@).len() && views(r@)[a] == h;
                        if a < prev.len() {
                            assert(views(prev)[a] == h);
                            assert(views(prev).contains(h));
                        } else {
                            assert(g.nodes[i as int] == h);
                        }
                    }
                    if exists|j: int| 0 <= j < i + 1 && #[trigger] g.nodes[j] == h && is_home(nv, m0, h) {
                        let j = choose|j: int| 0 <= j < i + 1 && #[trigger] g.nodes[j] == h && is_home(nv, m0, h);
                        if j < i {
                            assert(views(prev).contains(h));
                            let a = choose|a: int| 0 <= a < views(prev).len() && views(prev)[a] == h;
                            assert(views(r@)[a] == h);
                        } else {
                            assert(views(r@)[prev.len() as int] == h);
                        }
                    }
                };
            }
        } else {
            proof {
                assert forall|h: Seq<usize>| views(r@).contains(h) <==> exists|j: int| 0 <= j < i + 1 && #[trigger] g.nodes[j] == h && is_home(nv, m0, h) by {
                    if exists|j: int| 0 <= j < i + 1 && #[trigger] g.nodes[j] == h && is_home(nv, m0, h) {
                        let j = choose|j: int| 0 <= j < i + 1 && #[trigger] g.nodes[j] == h && is_home(nv, m0, h);
                        assert(j != i);
                    }
                };
            }
        }
        i += 1;
    }
    proof {
        assert forall|h: Seq<usize>| views(r@).contains(h) <==> is_home(nv, m0, h) by {
            if is_home(nv, m0, h) {
                lemma_out_node(g, nv, m0, h);
                let j = g.index_of(h);
                assert(g.nodes[j] == h);
            }
        };
    }
    r
}

/// Every home state of `net` reachable from `initial_marking`, each once, in the order of markings: the
/// markings that every reachable marking can always get back to. A net need
/// not be reversible to have one. Only defined when finitely many markings are
/// reachable and no count exceeds `usize`.
pub fn home_states(net: &PetriNet, initial_marking: &Marking) -> (r: Vec<Marking>)
    requires
        net.wf(),
        net@.within(initial_marking@.len()),
        net@.reachable_set(initial_marking@).finite(),
        net@.fits_from(initial_marking@),
    ensures
        crate::marking::in_marking_order(r@),
        views(r@).no_duplicates(),
        forall|h: Seq<usize>| views(r@).contains(h) <==> is_home(net@, initial_marking@, h),
{
    let found = home_states_found(net, initial_marking);
    proof {
        assert forall|a: int, b: int| 0 <= a < b < found@.len() implies (#[trigger] found@[a]).marking_key() != (#[trigger] found@[b]).marking_key() by {
            assert(views(found@)[a] == found@[a]@ && views(found@)[b] == found@[b]@);
        };
    }
    let r = crate::marking::sort_by_marking(found);
    proof {
        let (perm, inv) = choose|perm: Seq<int>, inv: Seq<int>| #[trigger] crate::marking::placed(found@, 0, r@, perm, inv);
        assert forall|a: int, b: int| 0 <= a < b < views(r@).len() implies views(r@)[a] != views(r@)[b] by {
            crate::marking::lemma_marking_order(r@[a]@, r@[b]@, r@[b]@);
            assert(crate::marking::marking_lt(r@[a].marking_key(), r@[b].marking_key()));
        };
        assert forall|h: Seq<usize>| views(r@).contains(h) <==> is_home(net@, initial_marking@, h) by {
            if views(r@).contains(h) {
                let j = choose|j: int| 0 <= j < views(r@).len() && views(r@)[j] == h;
                assert(views(r@)[j] == r@[j]@);
                assert(r@[j] == found@[perm[j]]);
                assert(views(found@)[perm[j]] == found@[perm[j]]@);
                assert(views(found@)[perm[j]] == h);
                assert(views(found@).contains(h));
            }
            if is_home(net@, initial_marking@, h) {
                assert(views(found@).contains(h));
                let j = choose|j: int| 0 <= j < views(found@).len() && views(found@)[j] == h;
                assert(views(found@)[j] == found@[j]@);
                assert(r@[inv[j]] == found@[j]);
                assert(views(r@)[inv[j]] == r@[inv[j]]@);
                assert(views(r@)[inv[j]] == h);
                assert(views(r@).contains(h));
            }
        };
    }
    r
}

/// Like [`is_reversible`], read off the Karp-Miller coverability graph instead
/// of the reachability graph, so it is defined on unbounded nets too: whether
/// every node of that graph leads back to its root.
pub fn is_reversible_covering(net: &PetriNet, initial_marking: &Marking) -> (b: bool)
    requires
        net.wf(),
        net@.within(initial_marking@.len()),
        km_fits(net@, extend(initial_marking@)),
    ensures
        exists|g: GraphView<Seq<ExtendedToken>>| #[trigger] is_coverability_graph(net@, initial_marking@, g)
            && b == home_in(g, extend(initial_marking@)),
{
    let graph = coverability_graph(net, initial_marking);
    reversible_covering_in(net, initial_marking, &graph)
}

/// [`is_reversible_covering`] on the coverability graph `graph` of `net` from `initial_marking`.
pub fn reversible_covering_in(net: &PetriNet, initial_marking: &Marking, graph: &Graph<ExtendedMarking>) -> (b: bool)
    requires
        net.wf(),
        net@.within(initial_marking@.len()),
        graph.wf(),
        is_coverability_graph(net@, initial_marking@, graph@),
    ensures
        b == home_in(graph@, extend(initial_marking@)),
{
    let initial = ExtendedMarking::from_marking(initial_marking);
    let b = is_home_state(graph, &initial);
    proof {
        assert(is_coverability_graph(net@, initial_marking@, graph@));
    }
    b
}

/// A net is reversible exactly when its initial marking is one of its home states.
pub proof fn lemma_reversible_iff_initial_home(net: NetView, m0: Seq<usize>)
    ensures
        reversible(net, m0) <==> is_home(net, m0, m0),
{
    lemma_reachable_self(net, m0);
}

} // verus!
