use vstd::prelude::*;

use crate::graph::GraphView;
use crate::net::{lemma_enabled_upto, lemma_reachable_self, lemma_reachable_step, NetView, TransitionId};

verus! {

/// `g` is the reachability graph of `net` from `m0`: its nodes are exactly the
/// markings reachable from `m0`, each with its enabled transitions (in index
/// order) and the markings their firings give.
pub open spec fn is_reachability_graph(g: GraphView<Seq<usize>>, net: NetView, m0: Seq<usize>) -> bool {
    &&& g.wf()
    &&& g.nodes.to_set() == net.reachable_set(m0)
    &&& forall|i: int| 0 <= i < g.nodes.len() ==> #[trigger] g.edges[i] == net.successors(g.nodes[i])
}

/// Running `ts1` and then `ts2` is running `ts1 + ts2`.
pub proof fn lemma_run_concat(net: NetView, a: Seq<usize>, ts1: Seq<TransitionId>, ts2: Seq<TransitionId>)
    requires
        net.run(a, ts1) is Some,
    ensures
        net.run(a, ts1 + ts2) == net.run(net.run(a, ts1).unwrap(), ts2),
    decreases ts1.len(),
{
    if ts1.len() > 0 {
        assert((ts1 + ts2)[0] == ts1[0]);
        assert((ts1 + ts2).drop_first() =~= ts1.drop_first() + ts2);
        lemma_run_concat(net, net.transitions[ts1[0].0 as int].fire(a), ts1.drop_first(), ts2);
    } else {
        assert(ts1 + ts2 =~= ts2);
    }
}

/// Reachability is transitive.
pub proof fn lemma_reachable_trans(net: NetView, a: Seq<usize>, b: Seq<usize>, c: Seq<usize>)
    requires
        net.reachable(a, b),
        net.reachable(b, c),
    ensures
        net.reachable(a, c),
{
    let ts1 = choose|ts: Seq<TransitionId>| #[trigger] net.run(a, ts) == Some(b);
    let ts2 = choose|ts: Seq<TransitionId>| #[trigger] net.run(b, ts) == Some(c);
    lemma_run_concat(net, a, ts1, ts2);
    assert(net.run(a, ts1 + ts2) == Some(c));
}

/// A marking reachable from `m0` is a node, and its edges are its successors.
pub proof fn lemma_out_node(g: GraphView<Seq<usize>>, net: NetView, m0: Seq<usize>, x: Seq<usize>)
    requires
        is_reachability_graph(g, net, m0),
        net.reachable(m0, x),
    ensures
        g.has(x),
        g.out(x) == net.successors(x),
{
    assert(net.reachable_set(m0).contains(x));
    assert(g.nodes.to_set().contains(x));
    let i = g.index_of(x);
    assert(g.edges[i] == net.successors(g.nodes[i]));
}

/// A node is reachable from `m0`.
pub proof fn lemma_node_reachable(g: GraphView<Seq<usize>>, net: NetView, m0: Seq<usize>, x: Seq<usize>)
    requires
        is_reachability_graph(g, net, m0),
        g.has(x),
    ensures
        net.reachable(m0, x),
{
    assert(g.nodes.to_set().contains(x));
    assert(net.reachable_set(m0).contains(x));
}

/// The `k`-th successor of a marking: its `k`-th enabled transition and the
/// marking that firing it gives.
pub proof fn lemma_successor(net: NetView, x: Seq<usize>, k: int)
    requires
        net.transitions.len() <= usize::MAX,
        0 <= k < net.successors(x).len(),
    ensures
        net.successors(x)[k].0 == net.enabled_ids(x)[k],
        net.can_fire(net.successors(x)[k].0.0 as int, x),
        net.successors(x)[k].1 == net.transitions[net.successors(x)[k].0.0 as int].fire(x),
{
    lemma_enabled_upto(net, x, net.transitions.len());
    assert(net.enabled_ids(x)[k] == net.enabled_upto(x, net.transitions.len())[k]);
}

/// An enabled transition is among the successors of a marking.
pub proof fn lemma_successor_of(net: NetView, x: Seq<usize>, t: TransitionId) -> (k: int)
    requires
        net.transitions.len() <= usize::MAX,
        net.can_fire(t.0 as int, x),
    ensures
        0 <= k < net.successors(x).len(),
        net.successors(x)[k] == (t, net.transitions[t.0 as int].fire(x)),
{
    lemma_enabled_upto(net, x, net.transitions.len());
    let ids = net.enabled_ids(x);
    assert(TransitionId((t.0 as int) as usize) == t);
    assert(ids.contains(t));
    let k = choose|k: int| 0 <= k < ids.len() && ids[k] == t;
    k
}

/// An edge of the reachability graph fires its transition.
pub proof fn lemma_step_fires(g: GraphView<Seq<usize>>, net: NetView, m0: Seq<usize>, x: Seq<usize>, k: int)
    requires
        is_reachability_graph(g, net, m0),
        net.transitions.len() <= usize::MAX,
        0 <= k < g.out(x).len(),
    ensures
        g.has(x),
        net.reachable(m0, x),
        net.can_fire(g.out(x)[k].0.0 as int, x),
        g.out(x)[k].1 == net.transitions[g.out(x)[k].0.0 as int].fire(x),
        net.reachable(m0, g.out(x)[k].1),
{
    assert(g.has(x));
    lemma_node_reachable(g, net, m0, x);
    lemma_out_node(g, net, m0, x);
    lemma_successor(net, x, k);
    lemma_reachable_step(net, m0, x, g.out(x)[k].0);
}

proof fn lemma_walk_prefix(g: GraphView<Seq<usize>>, net: NetView, m0: Seq<usize>, p: Seq<Seq<usize>>, j: int)
    requires
        is_reachability_graph(g, net, m0),
        net.transitions.len() <= usize::MAX,
        p.len() >= 1,
        g.is_walk(p),
        0 <= j < p.len(),
    ensures
        net.reachable(p[0], p[j]),
    decreases j,
{
    if j == 0 {
        lemma_reachable_self(net, p[0]);
    } else {
        lemma_walk_prefix(g, net, m0, p, j - 1);
        assert(g.step(p[j - 1], p[j]));
        let k = choose|k: int| 0 <= k < g.out(p[j - 1]).len() && #[trigger] g.out(p[j - 1])[k].1 == p[j];
        lemma_step_fires(g, net, m0, p[j - 1], k);
        lemma_reachable_step(net, p[0], p[j - 1], g.out(p[j - 1])[k].0);
    }
}

/// What the reachability graph reaches, the net reaches by firing.
pub proof fn lemma_reaches_reachable(g: GraphView<Seq<usize>>, net: NetView, m0: Seq<usize>, a: Seq<usize>, b: Seq<usize>)
    requires
        is_reachability_graph(g, net, m0),
        net.transitions.len() <= usize::MAX,
        g.reaches(a, b),
    ensures
        net.reachable(a, b),
{
    let p = choose|p: Seq<Seq<usize>>| p.len() >= 1 && p[0] == a && p.last() == b && #[trigger] g.is_walk(p);
    lemma_walk_prefix(g, net, m0, p, p.len() - 1);
}

/// What the net reaches by firing from a reachable marking, the reachability graph reaches.
pub proof fn lemma_run_reaches(g: GraphView<Seq<usize>>, net: NetView, m0: Seq<usize>, a: Seq<usize>, ts: Seq<TransitionId>)
    requires
        is_reachability_graph(g, net, m0),
        net.transitions.len() <= usize::MAX,
        net.reachable(m0, a),
        net.run(a, ts) is Some,
    ensures
        g.reaches(a, net.run(a, ts).unwrap()),
    decreases ts.len(),
{
    if ts.len() == 0 {
        g.lemma_reaches_refl(a);
    } else {
        let t = ts[0];
        let b = net.transitions[t.0 as int].fire(a);
        lemma_reachable_step(net, m0, a, t);
        lemma_run_reaches(g, net, m0, b, ts.drop_first());
        lemma_out_node(g, net, m0, a);
        let k = lemma_successor_of(net, a, t);
        assert(g.out(a)[k].1 == b);
        assert(g.step(a, b));
        g.lemma_reaches_prepend(a, b, net.run(a, ts).unwrap());
    }
}

/// Reachability in the graph and in the net agree from a reachable marking.
pub proof fn lemma_reachable_reaches(g: GraphView<Seq<usize>>, net: NetView, m0: Seq<usize>, a: Seq<usize>, b: Seq<usize>)
    requires
        is_reachability_graph(g, net, m0),
        net.transitions.len() <= usize::MAX,
        net.reachable(m0, a),
        net.reachable(a, b),
    ensures
        g.reaches(a, b),
{
    let ts = choose|ts: Seq<TransitionId>| #[trigger] net.run(a, ts) == Some(b);
    lemma_run_reaches(g, net, m0, a, ts);
}

/// A labelled walk of the reachability graph is a firing sequence of the net.
pub proof fn lemma_labelled_walk_run(
    g: GraphView<Seq<usize>>,
    net: NetView,
    m0: Seq<usize>,
    a: Seq<usize>,
    ts: Seq<TransitionId>,
    b: Seq<usize>,
)
    requires
        is_reachability_graph(g, net, m0),
        net.transitions.len() <= usize::MAX,
        g.labelled_walk(a, ts, b),
    ensures
        net.run(a, ts) == Some(b),
    decreases ts.len(),
{
    if ts.len() > 0 {
        let j = choose|j: int|
            0 <= j < g.out(a).len() && #[trigger] g.out(a)[j].0 == ts[0]
                && g.labelled_walk(g.out(a)[j].1, ts.drop_first(), b);
        lemma_step_fires(g, net, m0, a, j);
        lemma_labelled_walk_run(g, net, m0, g.out(a)[j].1, ts.drop_first(), b);
    }
}

/// A firing sequence of the net from a reachable marking is a labelled walk
/// of the reachability graph.
pub proof fn lemma_run_labelled_walk(g: GraphView<Seq<usize>>, net: NetView, m0: Seq<usize>, a: Seq<usize>, ts: Seq<TransitionId>)
    requires
        is_reachability_graph(g, net, m0),
        net.transitions.len() <= usize::MAX,
        net.reachable(m0, a),
        net.run(a, ts) is Some,
    ensures
        g.labelled_walk(a, ts, net.run(a, ts).unwrap()),
    decreases ts.len(),
{
    if ts.len() > 0 {
        let t = ts[0];
        let b = net.transitions[t.0 as int].fire(a);
        lemma_reachable_step(net, m0, a, t);
        lemma_run_labelled_walk(g, net, m0, b, ts.drop_first());
        lemma_out_node(g, net, m0, a);
        let k = lemma_successor_of(net, a, t);
        assert(g.out(a)[k] == (t, b));
        assert(net.run(a, ts) == net.run(b, ts.drop_first()));
        assert(g.out(a)[k].0 == ts[0] && g.labelled_walk(g.out(a)[k].1, ts.drop_first(), net.run(a, ts).unwrap()));
    }
}

} // verus!
