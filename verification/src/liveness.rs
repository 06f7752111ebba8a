use vstd::prelude::*;

use crate::graph::{contains_state, edges_view, lemma_unique_within, views, Graph, GraphView, State};
use crate::coverability::{coverability_graph, extend, is_coverability_graph, km_fits, ExtendedMarking, ExtendedToken};
use crate::marking::Marking;
use crate::net::{lemma_reachable_self, lemma_reachable_step, NetView, PetriNet, TransitionId};
use crate::reach::{
    lemma_run_labelled_walk,
    is_reachability_graph, lemma_labelled_walk_run, lemma_node_reachable, lemma_out_node, lemma_reachable_reaches,
    lemma_reachable_trans, lemma_reaches_reachable, lemma_step_fires, lemma_successor, lemma_successor_of,
};

verus! {

/// Liveness level of a transition (Murata, 1989), weakest first.
///
/// Between L2 and L3 the quantifiers swap (for every k some sequence, against
/// one sequence for every k), which is no matter of degree.
#[derive(Debug, Clone, Copy, PartialEq, Eq, PartialOrd, Ord, Structural)]
pub enum Liveness {
    /// L0: the transition fires in no firing sequence from the initial marking.
    Dead,
    /// L1: the transition fires at least once in some firing sequence from the initial marking.
    PotentiallyFirable,
    /// L2: for every k, some firing sequence fires the transition at least k times.
    ArbitrarilyRepeatable,
    /// L3: some firing sequence fires the transition infinitely often.
    RepeatableForever,
    /// L4: the transition is L1 from every reachable marking.
    Total,
}

impl Liveness {
    /// The level number, 0 (dead) to 4 (total).
    pub fn as_lk(self) -> (k: u8)
        ensures
            k == match self {
                Liveness::Dead => 0u8,
                Liveness::PotentiallyFirable => 1u8,
                Liveness::ArbitrarilyRepeatable => 2u8,
                Liveness::RepeatableForever => 3u8,
                Liveness::Total => 4u8,
            },
    {
        match self {
            Liveness::Dead => 0,
            Liveness::PotentiallyFirable => 1,
            Liveness::ArbitrarilyRepeatable => 2,
            Liveness::RepeatableForever => 3,
            Liveness::Total => 4,
        }
    }
}

/// Liveness of one transition: its level, the bound on how often it fires when
/// that is known (zero for a dead one), and a firing sequence that fires it.
pub struct LivenessReport {
    pub level: Liveness,
    pub k: Option<usize>,
    pub example: Vec<TransitionId>,
}

/// Some state `a` reaches has an edge labelled `t`.
pub open spec fn fires_in<V>(g: GraphView<V>, a: V, t: TransitionId) -> bool {
    exists|x: V| #[trigger] g.reaches(a, x) && exists|k: int| 0 <= k < g.out(x).len() && #[trigger] g.out(x)[k].0 == t
}

/// A witness for [`fires_in`].
pub proof fn lemma_fires_in<V>(g: GraphView<V>, a: V, x: V, k: int, t: TransitionId)
    requires
        g.reaches(a, x),
        0 <= k < g.out(x).len(),
        g.out(x)[k].0 == t,
    ensures
        fires_in(g, a, t),
{
    assert(exists|kk: int| 0 <= kk < g.out(x).len() && #[trigger] g.out(x)[kk].0 == t);
}

/// Some edge labelled `t` lies on a cycle: its target reaches its source.
pub open spec fn on_cycle<V>(g: GraphView<V>, t: TransitionId) -> bool {
    exists|i: int, k: int| 0 <= i < g.nodes.len() && 0 <= k < g.edges[i].len()
        && #[trigger] g.edges[i][k].0 == t && g.reaches(g.edges[i][k].1, g.nodes[i])
}

/// Liveness level of `t` read off `g` from `m0`: dead if it never fires from
/// `m0`, total if it can still fire from every node, repeatable forever if it
/// lies on a cycle, potentially firable otherwise. (On a finite graph L2 and L3
/// coincide, so `ArbitrarilyRepeatable` is never the answer.)
pub open spec fn liveness_level<V>(g: GraphView<V>, m0: V, t: TransitionId) -> Liveness {
    if !fires_in(g, m0, t) {
        Liveness::Dead
    } else if forall|i: int| 0 <= i < g.nodes.len() ==> #[trigger] fires_in(g, g.nodes[i], t) {
        Liveness::Total
    } else if on_cycle(g, t) {
        Liveness::RepeatableForever
    } else {
        Liveness::PotentiallyFirable
    }
}

/// `ts` is a firing sequence of `g` from `a`.
pub open spec fn fires_along<V>(g: GraphView<V>, a: V, ts: Seq<TransitionId>) -> bool {
    exists|b: V| #[trigger] g.labelled_walk(a, ts, b)
}

/// Whether `to` can be reached from `from` by following zero or more edges of `graph`.
pub fn can_reach<M: State>(graph: &Graph<M>, from: &M, to: &M) -> (b: bool)
    requires
        graph.wf(),
    ensures
        b == graph@.reaches(from@, to@),
{
    if from.state_eq(to) {
        proof {
            graph@.lemma_reaches_refl(from@);
        }
        return true;
    }
    let states = graph.reachable_states(from);
    contains_state(&states, to)
}

/// Whether `t` is among `v`.
fn contains_transition(v: &Vec<TransitionId>, t: TransitionId) -> (b: bool)
    ensures
        b == v@.contains(t),
{
    let mut i: usize = 0;
    while i < v.len()
        invariant
            i <= v@.len(),
            forall|j: int| 0 <= j < i ==> v@[j] != t,
        decreases v@.len() - i,
    {
        if v[i] == t {
            return true;
        }
        i += 1;
    }
    false
}

/// Index pair `(ii, kk)` comes before `(i, k)` in row-major order.
pub open spec fn before(ii: int, kk: int, i: int, k: int) -> bool {
    ii < i || (ii == i && kk < k)
}

/// The transitions labelling some edge whose target reaches back to its
/// source, each once.
pub fn transitions_in_cycle<M: State>(graph: &Graph<M>) -> (r: Vec<TransitionId>)
    requires
        graph.wf(),
    ensures
        r@.no_duplicates(),
        forall|t: TransitionId| r@.contains(t) <==> on_cycle(graph@, t),
{
    let ghost g = graph@;
    let mut r: Vec<TransitionId> = Vec::new();
    let n = graph.len();
    let mut i: usize = 0;
    while i < n
        invariant
            graph.wf(),
            g == graph@,
            n == g.nodes.len(),
            i <= n,
            r@.no_duplicates(),
            forall|t: TransitionId| r@.contains(t) ==> on_cycle(g, t),
            forall|ii: int, kk: int| 0 <= ii < i && 0 <= kk < g.edges[ii].len()
                && g.reaches(g.edges[ii][kk].1, g.nodes[ii]) ==> r@.contains(#[trigger] g.edges[ii][kk].0),
        decreases n - i,
    {
        let from = graph.key(i);
        let edges = graph.edges(i);
        let mut k: usize = 0;
        while k < edges.len()
            invariant
                graph.wf(),
                g == graph@,
                n == g.nodes.len(),
                i < n,
                from@ == g.nodes[i as int],
                edges_view(edges@) == g.edges[i as int],
                k <= edges@.len(),
                r@.no_duplicates(),
                forall|t: TransitionId| r@.contains(t) ==> on_cycle(g, t),
                forall|ii: int, kk: int| 0 <= ii < n && 0 <= kk < g.edges[ii].len() && before(ii, kk, i as int, k as int)
                    && g.reaches(g.edges[ii][kk].1, g.nodes[ii]) ==> r@.contains(#[trigger] g.edges[ii][kk].0),
            decreases edges@.len() - k,
        {
            let (t, to) = &edges[k];
            proof {
                assert(g.edges[i as int][k as int] == (*t, to@));
            }
            if can_reach(graph, to, from) && !contains_transition(&r, *t) {
                let ghost prev = r@;
                r.push(*t);
                proof {
                    assert forall|a: int, b: int| 0 <= a < b < r@.len() implies r@[a] != r@[b] by {
                        if b == r@.len() - 1 {
                            assert(prev.contains(r@[a]));
                        }
                    };
                    assert forall|x: TransitionId| prev.contains(x) implies r@.contains(x) by {
                        let j = choose|j: int| 0 <= j < prev.len() && prev[j] == x;
                        assert(r@[j] == x);
                    };
                    assert forall|x: TransitionId| r@.contains(x) implies on_cycle(g, x) by {
                        let j = choose|j: int| 0 <= j < r@.len() && r@[j] == x;
                        if j < prev.len() {
                            assert(prev[j] == x);
                        } else {
                            assert(g.edges[i as int][k as int].0 == x);
                        }
                    };
                    assert(r@[r@.len() - 1] == *t);
                }
            }
            k += 1;
        }
        i += 1;
    }
    r
}

/// Whether `transition` labels an edge leaving `from` or some state reachable from it.
pub fn fires_from<M: State>(graph: &Graph<M>, from: &M, transition: TransitionId) -> (b: bool)
    requires
        graph.wf(),
    ensures
        b == fires_in(graph@, from@, transition),
{
    let ghost g = graph@;
    let states = graph.reachable_states(from);
    let mut i: usize = 0;
    while i < states.len()
        invariant
            graph.wf(),
            g == graph@,
            i <= states@.len(),
            forall|x: M::V| views(states@).contains(x) <==> g.reaches(from@, x),
            forall|j: int, k: int| 0 <= j < i && 0 <= k < g.out(states@[j]@).len()
                ==> #[trigger] g.out(states@[j]@)[k].0 != transition,
        decreases states@.len() - i,
    {
        match graph.get(&states[i]) {
            Some(edges) => {
                let mut k: usize = 0;
                while k < edges.len()
                    invariant
                        g == graph@,
                        edges_view(edges@) == g.out(states@[i as int]@),
                        i < states@.len(),
                        forall|x: M::V| views(states@).contains(x) <==> g.reaches(from@, x),
                        k <= edges@.len(),
                        forall|kk: int| 0 <= kk < k ==> #[trigger] g.out(states@[i as int]@)[kk].0 != transition,
                    decreases edges@.len() - k,
                {
                    proof {
                        assert(g.out(states@[i as int]@)[k as int].0 == edges@[k as int].0);
                    }
                    if edges[k].0 == transition {
                        proof {
                            assert(views(states@)[i as int] == states@[i as int]@);
                            assert(views(states@).contains(states@[i as int]@));
                            assert(g.reaches(from@, states@[i as int]@));
                            lemma_fires_in(g, from@, states@[i as int]@, k as int, transition);
                        }
                        return true;
                    }
                    k += 1;
                }
            },
            None => {},
        }
        i += 1;
    }
    proof {
        if fires_in(g, from@, transition) {
            let x = choose|x: M::V| #[trigger] g.reaches(from@, x)
                && exists|k: int| 0 <= k < g.out(x).len() && #[trigger] g.out(x)[k].0 == transition;
            let k = choose|k: int| 0 <= k < g.out(x).len() && #[trigger] g.out(x)[k].0 == transition;
            assert(views(states@).contains(x));
            let j = choose|j: int| 0 <= j < views(states@).len() && views(states@)[j] == x;
            assert(states@[j]@ == x);
            assert(g.out(states@[j]@)[k].0 != transition);
        }
    }
    false
}

/// Every transition labelling an edge leaving `from` or a state reachable from it, each once.
pub fn reachable_transitions_from<M: State>(graph: &Graph<M>, from: &M) -> (r: Vec<TransitionId>)
    requires
        graph.wf(),
    ensures
        r@.no_duplicates(),
        forall|t: TransitionId| r@.contains(t) <==> fires_in(graph@, from@, t),
{
    let ghost g = graph@;
    let states = graph.reachable_states(from);
    let mut found: Vec<TransitionId> = Vec::new();
    let mut i: usize = 0;
    while i < states.len()
        invariant
            graph.wf(),
            g == graph@,
            i <= states@.len(),
            forall|x: M::V| views(states@).contains(x) <==> g.reaches(from@, x),
            found@.no_duplicates(),
            forall|t: TransitionId| found@.contains(t) ==> fires_in(g, from@, t),
            forall|j: int, k: int| 0 <= j < i && 0 <= k < g.out(states@[j]@).len()
                ==> found@.contains(#[trigger] g.out(states@[j]@)[k].0),
        decreases states@.len() - i,
    {
        proof {
            assert(views(states@)[i as int] == states@[i as int]@);
            assert(views(states@).contains(states@[i as int]@));
        }
        match graph.get(&states[i]) {
            Some(edges) => {
                let mut k: usize = 0;
                while k < edges.len()
                    invariant
                        edges_view(edges@) == g.out(states@[i as int]@),
                        i < states@.len(),
                        g.reaches(from@, states@[i as int]@),
                        k <= edges@.len(),
                        found@.no_duplicates(),
                        forall|t: TransitionId| found@.contains(t) ==> fires_in(g, from@, t),
                        forall|j: int, kk: int| 0 <= j < i && 0 <= kk < g.out(states@[j]@).len()
                            ==> found@.contains(#[trigger] g.out(states@[j]@)[kk].0),
                        forall|kk: int| 0 <= kk < k ==> found@.contains(#[trigger] g.out(states@[i as int]@)[kk].0),
                    decreases edges@.len() - k,
                {
                    let t = edges[k].0;
                    proof {
                        assert(g.out(states@[i as int]@)[k as int].0 == t);
                    }
                    if !contains_transition(&found, t) {
                        let ghost prev = found@;
                        found.push(t);
                        proof {
                            assert(found@ == prev.push(t));
                            assert forall|a: int, b: int| 0 <= a < b < found@.len() implies found@[a] != found@[b] by {
                                if b == found@.len() - 1 {
                                    assert(prev.contains(found@[a]));
                                }
                            };
                            assert forall|x: TransitionId| prev.contains(x) implies found@.contains(x) by {
                                let j = choose|j: int| 0 <= j < prev.len() && prev[j] == x;
                                assert(found@[j] == x);
                            };
                            assert forall|x: TransitionId| found@.contains(x) implies fires_in(g, from@, x) by {
                                let j = choose|j: int| 0 <= j < found@.len() && found@[j] == x;
                                if j < prev.len() {
                                    assert(prev[j] == x);
                                    assert(prev.contains(x));
                                } else {
                                    assert(j == prev.len());
                                    assert(x == t);
                                    assert(g.out(states@[i as int]@)[k as int].0 == x);
                                    lemma_fires_in(g, from@, states@[i as int]@, k as int, x);
                                }
                            };
                            assert(found@[found@.len() - 1] == t);
                        }
                    }
                    k += 1;
                }
            },
            None => {
                proof {
                    assert(g.out(states@[i as int]@).len() == 0);
                }
            },
        }
        i += 1;
    }
    proof {
        assert forall|t: TransitionId| fires_in(g, from@, t) implies found@.contains(t) by {
            let x = choose|x: M::V| #[trigger] g.reaches(from@, x)
                && exists|k: int| 0 <= k < g.out(x).len() && #[trigger] g.out(x)[k].0 == t;
            let k = choose|k: int| 0 <= k < g.out(x).len() && #[trigger] g.out(x)[k].0 == t;
            assert(views(states@).contains(x));
            let j = choose|j: int| 0 <= j < views(states@).len() && views(states@)[j] == x;
            assert(states@[j]@ == x);
            assert(g.out(states@[j]@)[k].0 == t);
        };
    }
    found
}

/// Index a parent link points back to (-1 for none).
pub open spec fn link_from<T>(e: Option<(T, usize)>) -> int {
    match e {
        Some(x) => x.1 as int,
        None => -1,
    }
}

/// Transitions along the parent links from entry `i` back to the root of a
/// breadth-first search, root first.
pub open spec fn bfs_path<T>(parent: Seq<Option<(T, usize)>>, i: int) -> Seq<T>
    decreases i,
{
    if 0 <= i < parent.len() && parent[i] is Some && link_from(parent[i]) < i {
        bfs_path(parent, link_from(parent[i])).push(parent[i].unwrap().0)
    } else {
        Seq::empty()
    }
}

/// Depth of entry `j` of a breadth-first search: the length of its parent path.
pub open spec fn bfs_depth<T>(parent: Seq<Option<(T, usize)>>, j: int) -> int {
    bfs_path(parent, j).len() as int
}

/// A breadth-first search over `g` from `a` that has found `vs`, each with its
/// parent link, and expanded the first `head` of them: the root comes first,
/// depths never decrease along `vs`, and every successor of an expanded entry
/// is found at most one level below it.
#[verifier::opaque]
pub open spec fn bfs_layered<V, T>(g: GraphView<V>, a: V, vs: Seq<V>, parent: Seq<Option<(T, usize)>>, head: int) -> bool {
    &&& vs.len() == parent.len()
    &&& vs.len() >= 1
    &&& vs[0] == a
    &&& parent[0] is None
    &&& 0 <= head <= vs.len()
    &&& forall|i: int, j: int| 0 <= i <= j < vs.len() ==> #[trigger] bfs_depth(parent, i) <= #[trigger] bfs_depth(parent, j)
    &&& forall|j: int, k: int|
        0 <= j < head && 0 <= k < g.out(vs[j]).len() ==> found_within(vs, parent, (#[trigger] g.out(vs[j])[k]).1, bfs_depth(parent, j) + 1)
}

/// `x` has been found, at a depth of at most `d`.
pub open spec fn found_within<V, T>(vs: Seq<V>, parent: Seq<Option<(T, usize)>>, x: V, d: int) -> bool {
    exists|i: int| 0 <= i < vs.len() && vs[i] == x && bfs_depth(parent, i) <= d
}

/// In a breadth-first search, a node reached by a labelled walk no longer than
/// the depth being expanded (or by any walk, once every entry is expanded) has
/// been found, at a depth no greater than the walk's length.
pub proof fn lemma_bfs_walk_bound<V, T>(
    g: GraphView<V>,
    a: V,
    vs: Seq<V>,
    parent: Seq<Option<(T, usize)>>,
    head: int,
    w: Seq<TransitionId>,
    x: V,
)
    requires
        bfs_layered(g, a, vs, parent, head),
        g.labelled_walk(a, w, x),
        (head < vs.len() && w.len() <= bfs_depth(parent, head)) || head == vs.len(),
    ensures
        exists|i: int| 0 <= i < vs.len() && vs[i] == x && bfs_depth(parent, i) <= w.len(),
    decreases w.len(),
{
    reveal(bfs_layered);
    if w.len() == 0 {
        assert(vs[0] == x);
        assert(bfs_depth(parent, 0) == 0);
    } else {
        let (y, k) = g.lemma_labelled_walk_last(a, w, x);
        lemma_bfs_walk_bound(g, a, vs, parent, head, w.drop_last(), y);
        let iy = choose|i: int| 0 <= i < vs.len() && vs[i] == y && bfs_depth(parent, i) <= w.drop_last().len();
        if iy >= head {
            assert(bfs_depth(parent, head) <= bfs_depth(parent, iy));
        }
        assert(g.out(vs[iy])[k].1 == x);
        assert(found_within(vs, parent, g.out(vs[iy])[k].1, bfs_depth(parent, iy) + 1));
        let i = choose|i: int| 0 <= i < vs.len() && vs[i] == x && bfs_depth(parent, i) <= bfs_depth(parent, iy) + 1;
        assert(vs[i] == x);
    }
}

/// A breadth-first search expanding entry `head`, whose expanded entries have
/// no edge labelled `t`, finds no firing sequence ending with `t` shorter than
/// one more than the depth of `head`.
pub proof fn lemma_bfs_first_firing<V, T>(
    g: GraphView<V>,
    a: V,
    vs: Seq<V>,
    parent: Seq<Option<(T, usize)>>,
    head: int,
    t: TransitionId,
    q: Seq<TransitionId>,
)
    requires
        bfs_layered(g, a, vs, parent, head),
        head < vs.len(),
        forall|j: int, k: int| 0 <= j < head && 0 <= k < g.out(vs[j]).len() ==> (#[trigger] g.out(vs[j])[k]).0 != t,
        q.len() > 0,
        q.last() == t,
        fires_along(g, a, q),
    ensures
        bfs_depth(parent, head) + 1 <= q.len(),
{
    reveal(bfs_layered);
    let b = choose|b: V| #[trigger] g.labelled_walk(a, q, b);
    let (x, k) = g.lemma_labelled_walk_last(a, q, b);
    if q.drop_last().len() < bfs_depth(parent, head) {
        lemma_bfs_walk_bound(g, a, vs, parent, head, q.drop_last(), x);
        let i = choose|i: int| 0 <= i < vs.len() && vs[i] == x && bfs_depth(parent, i) <= q.drop_last().len();
        if i >= head {
            assert(bfs_depth(parent, head) <= bfs_depth(parent, i));
        }
        assert(g.out(vs[i])[k].0 == t);
    }
}

/// The transitions along the parent links of entry `i`, root first.
pub fn bfs_reconstruct<T: Copy>(parent: &Vec<Option<(T, usize)>>, i: usize) -> (r: Vec<T>)
    requires
        i < parent@.len(),
        forall|j: int| 0 <= j < parent@.len() && (#[trigger] parent@[j]) is Some ==> link_from(parent@[j]) < j,
    ensures
        r@ == bfs_path(parent@, i as int),
{
    let mut rev: Vec<T> = Vec::new();
    let mut cursor: usize = i;
    while parent[cursor].is_some()
        invariant
            cursor < parent@.len(),
            forall|j: int| 0 <= j < parent@.len() && (#[trigger] parent@[j]) is Some ==> link_from(parent@[j]) < j,
            bfs_path(parent@, i as int) == bfs_path(parent@, cursor as int) + rev@.reverse(),
        decreases cursor,
    {
        let (t, prev) = parent[cursor].unwrap();
        let ghost old_rev = rev@;
        rev.push(t);
        proof {
            assert(rev@.reverse() =~= seq![t] + old_rev.reverse());
            assert(bfs_path(parent@, cursor as int) == bfs_path(parent@, prev as int).push(t));
            assert(bfs_path(parent@, prev as int).push(t) + old_rev.reverse()
                =~= bfs_path(parent@, prev as int) + (seq![t] + old_rev.reverse()));
        }
        cursor = prev;
    }
    proof {
        assert(bfs_path(parent@, cursor as int) =~= Seq::<T>::empty());
        assert(bfs_path(parent@, i as int) =~= rev@.reverse());
    }
    let mut r: Vec<T> = Vec::new();
    let mut j: usize = rev.len();
    while j > 0
        invariant
            j <= rev@.len(),
            r@ == rev@.reverse().take((rev@.len() - j) as int),
        decreases j,
    {
        j -= 1;
        r.push(rev[j]);
        proof {
            assert(r@ =~= rev@.reverse().take((rev@.len() - j) as int));
        }
    }
    proof {
        assert(rev@.reverse().take(rev@.len() as int) =~= rev@.reverse());
    }
    r
}

/// A firing sequence from `from` that ends by firing `target`, found breadth
/// first (so it is a shortest one), or `None` when `target` fires from no state
/// reachable from `from`.
pub fn firing_path_to<M: State>(graph: &Graph<M>, from: &M, target: TransitionId) -> (r: Option<Vec<TransitionId>>)
    requires
        graph.wf(),
    ensures
        r is Some <==> fires_in(graph@, from@, target),
        r matches Some(p) ==> p@.len() > 0 && p@.last() == target && fires_along(graph@, from@, p@),
        r matches Some(p) ==> forall|q: Seq<TransitionId>|
            q.len() > 0 && q.last() == target && #[trigger] fires_along(graph@, from@, q) ==> p@.len() <= q.len(),
{
    let ghost g = graph@;
    let ghost u = g.universe(from@);
    let mut visited: Vec<M> = Vec::new();
    visited.push(from.state_clone());
    let mut parent: Vec<Option<(TransitionId, usize)>> = Vec::new();
    parent.push(None);
    let mut head: usize = 0;
    proof {
        assert(views(visited@) =~= seq![from@]);
        assert(bfs_path(parent@, 0) =~= Seq::<TransitionId>::empty());
        assert(g.labelled_walk(from@, Seq::<TransitionId>::empty(), from@));
        lemma_bfs_start(g, from@, views(visited@), parent@);
    }
    while head < visited.len()
        invariant
            graph.wf(),
            g == graph@,
            u == g.universe(from@),
            visited@.len() == parent@.len(),
            visited@.len() >= 1,
            visited@[0]@ == from@,
            views(visited@).no_duplicates(),
            forall|j: int| 0 <= j < visited@.len() ==> u.contains(#[trigger] views(visited@)[j]),
            forall|j: int| 0 <= j < parent@.len() && (#[trigger] parent@[j]) is Some ==> link_from(parent@[j]) < j,
            forall|j: int| 0 <= j < visited@.len() ==> g.labelled_walk(from@, bfs_path(parent@, j), #[trigger] visited@[j]@),
            head <= visited@.len(),
            forall|j: int, k: int| 0 <= j < head && 0 <= k < g.out(visited@[j]@).len()
                ==> (#[trigger] g.out(visited@[j]@)[k]).0 != target,
            forall|j: int, k: int| 0 <= j < head && 0 <= k < g.out(visited@[j]@).len()
                ==> views(visited@).contains((#[trigger] g.out(visited@[j]@)[k]).1),
            bfs_layered(g, from@, views(visited@), parent@, head as int),
            head < visited@.len() ==> forall|j: int| 0 <= j < visited@.len() ==> #[trigger] bfs_depth(parent@, j) <= bfs_depth(parent@, head as int) + 1,
        decreases u.len() - head,
    {
        proof {
            assert(u.contains(views(visited@)[head as int]));
            lemma_unique_within(views(visited@), u);
        }
        let current = visited[head].state_clone();
        match graph.get(&current) {
            Some(edges) => {
                let mut k: usize = 0;
                while k < edges.len()
                    invariant
                        graph.wf(),
                        g == graph@,
                        u == g.universe(from@),
                        current@ == visited@[head as int]@,
                        edges_view(edges@) == g.out(current@),
                        g.has(current@),
                        head < visited@.len(),
                        visited@.len() == parent@.len(),
                        visited@[0]@ == from@,
                        views(visited@).no_duplicates(),
                        forall|j: int| 0 <= j < visited@.len() ==> u.contains(#[trigger] views(visited@)[j]),
                        forall|j: int| 0 <= j < parent@.len() && (#[trigger] parent@[j]) is Some ==> link_from(parent@[j]) < j,
                        forall|j: int| 0 <= j < visited@.len() ==> g.labelled_walk(from@, bfs_path(parent@, j), #[trigger] visited@[j]@),
                        forall|j: int, kk: int| 0 <= j < head && 0 <= kk < g.out(visited@[j]@).len()
                            ==> (#[trigger] g.out(visited@[j]@)[kk]).0 != target,
                        forall|j: int, kk: int| 0 <= j < head && 0 <= kk < g.out(visited@[j]@).len()
                            ==> views(visited@).contains((#[trigger] g.out(visited@[j]@)[kk]).1),
                        k <= edges@.len(),
                        forall|kk: int| 0 <= kk < k ==> (#[trigger] g.out(current@)[kk]).0 != target,
                        forall|kk: int| 0 <= kk < k ==> views(visited@).contains((#[trigger] g.out(current@)[kk]).1),
                        bfs_layered(g, from@, views(visited@), parent@, head as int),
                        forall|j: int| 0 <= j < visited@.len() ==> #[trigger] bfs_depth(parent@, j) <= bfs_depth(parent@, head as int) + 1,
                        forall|kk: int| 0 <= kk < k ==> found_within(views(visited@), parent@, (#[trigger] g.out(current@)[kk]).1, bfs_depth(parent@, head as int) + 1),
                    decreases edges@.len() - k,
                {
                    let (t, next) = &edges[k];
                    proof {
                        assert(g.out(current@)[k as int] == (*t, next@));
                    }
                    if *t == target {
                        let mut path = bfs_reconstruct(&parent, head);
                        let ghost before_push = path@;
                        path.push(target);
                        proof {
                            assert(g.labelled_walk(from@, bfs_path(parent@, head as int), visited@[head as int]@));
                            g.lemma_labelled_walk_push(from@, before_push, current@, k as int);
                            assert(path@ == before_push.push(g.out(current@)[k as int].0));
                            assert(g.labelled_walk(from@, path@, next@));
                            g.lemma_labelled_walk_reaches(from@, before_push, current@);
                            lemma_fires_in(g, from@, current@, k as int, target);
                            assert forall|q: Seq<TransitionId>| q.len() > 0 && q.last() == target && #[trigger] fires_along(g, from@, q)
                                implies path@.len() <= q.len() by {
                                assert forall|j: int, kk: int| 0 <= j < head && 0 <= kk < g.out(views(visited@)[j]).len()
                                    implies (#[trigger] g.out(views(visited@)[j])[kk]).0 != target by {
                                    assert(views(visited@)[j] == visited@[j]@);
                                    assert(g.out(visited@[j]@)[kk].0 != target);
                                };
                                lemma_bfs_first_firing(g, from@, views(visited@), parent@, head as int, target, q);
                            };
                        }
                        return Some(path);
                    }
                    if !contains_state(&visited, next) {
                        let ghost old_visited = visited@;
                        let ghost old_parent = parent@;
                        proof {
                            assert(g.out(current@)[k as int].1 == next@);
                            g.lemma_step_target(current@, next@);
                        }
                        visited.push(next.state_clone());
                        parent.push(Some((*t, head)));
                        proof {
                            let nv = visited@.len() - 1;
                            assert(views(visited@) =~= views(old_visited).push(next@));
                            assert(views(visited@).no_duplicates()) by {
                                assert forall|a: int, b: int| 0 <= a < b < views(visited@).len()
                                    implies views(visited@)[a] != views(visited@)[b] by {
                                    if b == nv {
                                        assert(views(old_visited)[a] == views(visited@)[a]);
                                    }
                                };
                            };
                            assert forall|x: M::V| views(old_visited).contains(x) implies views(visited@).contains(x) by {
                                let j = choose|j: int| 0 <= j < views(old_visited).len() && views(old_visited)[j] == x;
                                assert(views(visited@)[j] == x);
                            };
                            assert(views(visited@)[nv] == next@);
                            assert forall|j: int| 0 <= j < visited@.len()
                                implies g.labelled_walk(from@, bfs_path(parent@, j), #[trigger] visited@[j]@) by {
                                if j < nv {
                                    assert(visited@[j] == old_visited[j]);
                                    assert(bfs_path(parent@, j) == bfs_path(old_parent, j)) by {
                                        lemma_bfs_path_prefix(old_parent, parent@, j);
                                    };
                                } else {
                                    assert(parent@[j] == Some((*t, head)));
                                    assert(bfs_path(parent@, j) == bfs_path(parent@, head as int).push(*t));
                                    lemma_bfs_path_prefix(old_parent, parent@, head as int);
                                    assert(visited@[head as int] == old_visited[head as int]);
                                    g.lemma_labelled_walk_push(from@, bfs_path(old_parent, head as int), current@, k as int);
                                }
                            };
                            assert forall|j: int| 0 <= j < visited@.len() implies u.contains(#[trigger] views(visited@)[j]) by {
                                if j < nv {
                                    assert(views(visited@)[j] == views(old_visited)[j]);
                                }
                            };
                            assert forall|j: int| 0 <= j < parent@.len() && (#[trigger] parent@[j]) is Some
                                implies link_from(parent@[j]) < j by {
                                if j < nv {
                                    assert(parent@[j] == old_parent[j]);
                                }
                            };
                            assert(visited@[head as int] == old_visited[head as int]);
                            assert(visited@[0] == old_visited[0]);
                            assert forall|j: int, kk: int| 0 <= j < head && 0 <= kk < g.out(visited@[j]@).len()
                                implies #[trigger] g.out(visited@[j]@)[kk].0 != target
                                    && views(visited@).contains(g.out(visited@[j]@)[kk].1) by {
                                assert(visited@[j] == old_visited[j]);
                                assert(g.out(old_visited[j]@)[kk].0 != target);
                                assert(views(old_visited).contains(g.out(old_visited[j]@)[kk].1));
                            };
                            assert forall|kk: int| 0 <= kk < k implies #[trigger] g.out(current@)[kk].0 != target
                                && views(visited@).contains(g.out(current@)[kk].1) by {
                                assert(views(old_visited).contains(g.out(current@)[kk].1));
                            };
                            lemma_bfs_push(g, from@, views(old_visited), old_parent, head, next@, *t);
                            assert(views(visited@) == views(old_visited).push(next@));
                            assert(parent@ == old_parent.push(Some((*t, head))));
                            assert forall|kk: int| 0 <= kk < k implies found_within(views(visited@), parent@, (#[trigger] g.out(current@)[kk]).1, bfs_depth(parent@, head as int) + 1) by {
                                assert(found_within(views(old_visited), old_parent, g.out(current@)[kk].1, bfs_depth(old_parent, head as int) + 1));
                                let i = choose|i: int| 0 <= i < views(old_visited).len() && views(old_visited)[i] == g.out(current@)[kk].1
                                    && bfs_depth(old_parent, i) <= bfs_depth(old_parent, head as int) + 1;
                                assert(views(visited@)[i] == views(old_visited)[i]);
                            };
                            assert(views(visited@)[views(visited@).len() - 1] == next@);
                        }
                    }
                    proof {
                        assert(views(visited@).contains(next@));
                        let i = choose|i: int| 0 <= i < views(visited@).len() && views(visited@)[i] == next@;
                        assert(g.out(current@)[k as int].1 == next@);
                        assert(bfs_depth(parent@, i) <= bfs_depth(parent@, head as int) + 1);
                        assert(found_within(views(visited@), parent@, g.out(current@)[k as int].1, bfs_depth(parent@, head as int) + 1));
                    }
                    k += 1;
                }
            },
            None => {
                proof {
                    assert(g.out(current@).len() == 0);
                }
            },
        }
        proof {
            assert forall|j: int, kk: int| 0 <= j <= head && 0 <= kk < g.out(visited@[j]@).len()
                implies (#[trigger] g.out(visited@[j]@)[kk]).0 != target
                    && views(visited@).contains(g.out(visited@[j]@)[kk].1) by {
                if j == head {
                    assert(visited@[j]@ == current@);
                }
            };
            let vs = views(visited@);
            assert(vs[head as int] == current@);
            assert forall|kk: int| 0 <= kk < g.out(vs[head as int]).len() implies found_within(vs, parent@, (#[trigger] g.out(vs[head as int])[kk]).1, bfs_depth(parent@, head as int) + 1) by {
                assert(g.out(vs[head as int])[kk] == g.out(current@)[kk]);
            };
            lemma_bfs_expanded(g, from@, vs, parent@, head as int);
        }
        head += 1;
    }
    proof {
        if fires_in(g, from@, target) {
            let s = views(visited@).to_set();
            assert forall|x: M::V, y: M::V| s.contains(x) && #[trigger] g.step(x, y) implies s.contains(y) by {
                let j = choose|j: int| 0 <= j < views(visited@).len() && views(visited@)[j] == x;
                let kk = choose|kk: int| 0 <= kk < g.out(x).len() && #[trigger] g.out(x)[kk].1 == y;
                assert(visited@[j]@ == x);
                assert(views(visited@).contains(g.out(visited@[j]@)[kk].1));
            };
            let x = choose|x: M::V| #[trigger] g.reaches(from@, x)
                && exists|k: int| 0 <= k < g.out(x).len() && #[trigger] g.out(x)[k].0 == target;
            let k = choose|k: int| 0 <= k < g.out(x).len() && #[trigger] g.out(x)[k].0 == target;
            assert(views(visited@)[0] == from@);
            g.lemma_closed_reaches(s, from@, x);
            let j = choose|j: int| 0 <= j < views(visited@).len() && views(visited@)[j] == x;
            assert(visited@[j]@ == x);
            assert(g.out(visited@[j]@)[k].0 != target);
        }
    }
    None
}

/// A search that has found only its root, and expanded nothing, is layered.
pub proof fn lemma_bfs_start<V, T>(g: GraphView<V>, a: V, vs: Seq<V>, parent: Seq<Option<(T, usize)>>)
    requires
        vs == seq![a],
        parent == seq![None::<(T, usize)>],
    ensures
        bfs_layered(g, a, vs, parent, 0),
{
    reveal(bfs_layered);
}

/// Once every successor of entry `head` is found at most one level below it,
/// the search has expanded `head` too.
pub proof fn lemma_bfs_expanded<V, T>(g: GraphView<V>, a: V, vs: Seq<V>, parent: Seq<Option<(T, usize)>>, head: int)
    requires
        bfs_layered(g, a, vs, parent, head),
        head < vs.len(),
        forall|k: int| 0 <= k < g.out(vs[head]).len() ==> found_within(vs, parent, (#[trigger] g.out(vs[head])[k]).1, bfs_depth(parent, head) + 1),
    ensures
        bfs_layered(g, a, vs, parent, head + 1),
        head + 1 < vs.len() ==> bfs_depth(parent, head) <= bfs_depth(parent, head + 1),
{
    reveal(bfs_layered);
    assert forall|j: int, k: int| 0 <= j < head + 1 && 0 <= k < g.out(vs[j]).len() implies found_within(vs, parent, (#[trigger] g.out(vs[j])[k]).1, bfs_depth(parent, j) + 1) by {
        if j < head {
        }
    };
}

/// Finding a new node from the entry being expanded, one level below it,
/// keeps the search layered.
pub proof fn lemma_bfs_push<V, T>(g: GraphView<V>, a: V, vs: Seq<V>, parent: Seq<Option<(T, usize)>>, head: usize, x: V, t: T)
    requires
        bfs_layered(g, a, vs, parent, head as int),
        head < vs.len(),
        forall|j: int| 0 <= j < parent.len() && (#[trigger] parent[j]) is Some ==> link_from(parent[j]) < j,
        forall|j: int| 0 <= j < vs.len() ==> #[trigger] bfs_depth(parent, j) <= bfs_depth(parent, head as int) + 1,
    ensures
        bfs_layered(g, a, vs.push(x), parent.push(Some((t, head))), head as int),
        forall|j: int| 0 <= j < vs.len() ==> #[trigger] bfs_depth(parent.push(Some((t, head))), j) == bfs_depth(parent, j),
        bfs_depth(parent.push(Some((t, head))), vs.len() as int) == bfs_depth(parent, head as int) + 1,
        forall|j: int| 0 <= j <= vs.len() ==> #[trigger] bfs_depth(parent.push(Some((t, head))), j) <= bfs_depth(parent, head as int) + 1,
{
    reveal(bfs_layered);
    let p2 = parent.push(Some((t, head)));
    let v2 = vs.push(x);
    let n = vs.len() as int;
    assert forall|j: int| 0 <= j < vs.len() implies #[trigger] bfs_depth(p2, j) == bfs_depth(parent, j) by {
        lemma_bfs_path_prefix(parent, p2, j);
    };
    assert(p2[n] == Some((t, head)));
    assert(bfs_path(p2, n) == bfs_path(p2, head as int).push(t));
    assert(bfs_depth(p2, n) == bfs_depth(parent, head as int) + 1) by {
        lemma_bfs_path_prefix(parent, p2, head as int);
    };
    assert forall|i: int, j: int| 0 <= i <= j < v2.len() implies #[trigger] bfs_depth(p2, i) <= #[trigger] bfs_depth(p2, j) by {
        if j < n {
            assert(bfs_depth(parent, i) <= bfs_depth(parent, j));
        } else if i < n {
            assert(bfs_depth(parent, i) <= bfs_depth(parent, head as int) + 1);
        }
    };
    assert forall|j: int, k: int| 0 <= j < head as int && 0 <= k < g.out(v2[j]).len() implies found_within(v2, p2, (#[trigger] g.out(v2[j])[k]).1, bfs_depth(p2, j) + 1) by {
        assert(v2[j] == vs[j]);
        assert(found_within(vs, parent, g.out(vs[j])[k].1, bfs_depth(parent, j) + 1));
        let i = choose|i: int| 0 <= i < vs.len() && vs[i] == g.out(vs[j])[k].1 && bfs_depth(parent, i) <= bfs_depth(parent, j) + 1;
        assert(v2[i] == vs[i]);
    };
    assert(p2[0] == parent[0]);
    assert(v2[0] == vs[0]);
}

/// Appending an entry keeps the parent paths of the earlier ones.
pub proof fn lemma_bfs_path_prefix<T>(p: Seq<Option<(T, usize)>>, q: Seq<Option<(T, usize)>>, j: int)
    requires
        p.len() <= q.len(),
        forall|i: int| 0 <= i < p.len() ==> q[i] == p[i],
        0 <= j < p.len(),
    ensures
        bfs_path(q, j) == bfs_path(p, j),
    decreases j,
{
    if p[j] is Some && link_from(p[j]) < j {
        lemma_bfs_path_prefix(p, q, link_from(p[j]));
    }
}

/// Liveness of `transition` read off `graph` from `initial_marking`: its level,
/// a bound of zero firings when it is dead (none otherwise), and a shortest
/// firing sequence that fires it (empty when it is dead).
pub fn liveness_of<M: State>(graph: &Graph<M>, initial_marking: &M, transition: TransitionId) -> (r: LivenessReport)
    requires
        graph.wf(),
    ensures
        r.level == liveness_level(graph@, initial_marking@, transition),
        r.k == (if r.level == Liveness::Dead { Some(0usize) } else { None::<usize> }),
        r.level == Liveness::Dead ==> r.example@.len() == 0,
        r.level != Liveness::Dead ==> r.example@.len() > 0 && r.example@.last() == transition
            && fires_along(graph@, initial_marking@, r.example@),
        r.level != Liveness::Dead ==> forall|q: Seq<TransitionId>|
            q.len() > 0 && q.last() == transition && #[trigger] fires_along(graph@, initial_marking@, q) ==> r.example@.len() <= q.len(),
{
    let ghost g = graph@;
    if !fires_from(graph, initial_marking, transition) {
        return LivenessReport { level: Liveness::Dead, k: Some(0), example: Vec::new() };
    }
    let keys = graph.keys();
    let mut everywhere = true;
    let mut i: usize = 0;
    while i < keys.len()
        invariant
            graph.wf(),
            g == graph@,
            keys@.len() == g.nodes.len(),
            forall|j: int| 0 <= j < keys@.len() ==> keys@[j]@ == g.nodes[j],
            i <= keys@.len(),
            everywhere == forall|j: int| 0 <= j < i ==> #[trigger] fires_in(g, g.nodes[j], transition),
        decreases keys@.len() - i,
    {
        let f = fires_from(graph, &keys[i], transition);
        proof {
            assert forall|j: int| 0 <= j < i + 1 && everywhere && f implies #[trigger] fires_in(g, g.nodes[j], transition) by {};
            if !f {
                assert(!fires_in(g, g.nodes[i as int], transition));
            }
        }
        everywhere = everywhere && f;
        i += 1;
    }
    let level = if everywhere {
        Liveness::Total
    } else if contains_transition(&transitions_in_cycle(graph), transition) {
        Liveness::RepeatableForever
    } else {
        Liveness::PotentiallyFirable
    };
    let example = match firing_path_to(graph, initial_marking, transition) {
        Some(p) => p,
        None => Vec::new(),
    };
    LivenessReport { level, k: None, example }
}

/// Whether `t` is among each of the lists in `per`.
fn in_every(per: &Vec<Vec<TransitionId>>, t: TransitionId) -> (b: bool)
    ensures
        b == forall|j: int| 0 <= j < per@.len() ==> #[trigger] per@[j]@.contains(t),
{
    let mut i: usize = 0;
    while i < per.len()
        invariant
            i <= per@.len(),
            forall|j: int| 0 <= j < i ==> #[trigger] per@[j]@.contains(t),
        decreases per@.len() - i,
    {
        if !contains_transition(&per[i], t) {
            return false;
        }
        i += 1;
    }
    true
}

/// Liveness of every transition of `net` from `initial_marking`, indexed by
/// transition: its level, a bound of zero firings when it is dead (none
/// otherwise), and a shortest firing sequence of the net that fires it (empty
/// when it is dead). The reachability graph, the transitions on its cycles and
/// those that can still fire from each marking are computed once. Only defined
/// when finitely many markings are reachable and no count exceeds `usize`.
pub fn liveness_report(net: &PetriNet, initial_marking: &Marking) -> (r: Vec<LivenessReport>)
    requires
        net.wf(),
        net@.within(initial_marking@.len()),
        net@.reachable_set(initial_marking@).finite(),
        net@.fits_from(initial_marking@),
    ensures
        r@.len() == net@.transitions.len(),
        forall|i: int| 0 <= i < r@.len() ==> (#[trigger] r@[i]).level == murata_level(net@, initial_marking@, TransitionId(i as usize)),
        forall|i: int| 0 <= i < r@.len() ==> (#[trigger] r@[i]).k == (if r@[i].level == Liveness::Dead { Some(0usize) } else { None::<usize> }),
        forall|i: int| 0 <= i < r@.len() && (#[trigger] r@[i]).level == Liveness::Dead ==> r@[i].example@.len() == 0,
        forall|i: int| 0 <= i < r@.len() && (#[trigger] r@[i]).level != Liveness::Dead ==> {
            &&& r@[i].example@.len() > 0
            &&& r@[i].example@.last() == TransitionId(i as usize)
            &&& net@.run(initial_marking@, r@[i].example@) is Some
            &&& forall|q: Seq<TransitionId>| q.len() > 0 && q.last() == TransitionId(i as usize)
                && #[trigger] net@.run(initial_marking@, q) is Some ==> r@[i].example@.len() <= q.len()
        },
{
    let ghost m0 = initial_marking@;
    let ghost nv = net@;
    let graph = net.reachable_markings(initial_marking);
    let ghost g = graph@;
    proof {
        net.lemma_wf();
        assert(is_reachability_graph(g, nv, m0));
    }
    let in_cycle = transitions_in_cycle(&graph);
    let n = graph.len();
    let mut per: Vec<Vec<TransitionId>> = Vec::new();
    let mut i: usize = 0;
    while i < n
        invariant
            graph.wf(),
            g == graph@,
            n == g.nodes.len(),
            i <= n,
            per@.len() == i,
            forall|j: int, t: TransitionId| 0 <= j < i ==> (#[trigger] per@[j]@.contains(t) <==> fires_in(g, g.nodes[j], t)),
        decreases n - i,
    {
        let found = reachable_transitions_from(&graph, graph.key(i));
        let ghost prev = per@;
        per.push(found);
        proof {
            assert forall|j: int, t: TransitionId| 0 <= j < i + 1 implies (#[trigger] per@[j]@.contains(t) <==> fires_in(g, g.nodes[j], t)) by {
                if j < i {
                    assert(per@[j] == prev[j]);
                }
            };
        }
        i += 1;
    }
    let from_initial = reachable_transitions_from(&graph, initial_marking);
    let count = net.transition_count();
    let mut r: Vec<LivenessReport> = Vec::new();
    let mut t: usize = 0;
    while t < count
        invariant
            graph.wf(),
            g == graph@,
            nv == net@,
            m0 == initial_marking@,
            is_reachability_graph(g, nv, m0),
            nv.transitions.len() <= usize::MAX,
            count == nv.transitions.len(),
            n == g.nodes.len(),
            per@.len() == n,
            forall|j: int, x: TransitionId| 0 <= j < n ==> (#[trigger] per@[j]@.contains(x) <==> fires_in(g, g.nodes[j], x)),
            forall|x: TransitionId| from_initial@.contains(x) <==> fires_in(g, m0, x),
            forall|x: TransitionId| in_cycle@.contains(x) <==> on_cycle(g, x),
            t <= count,
            r@.len() == t,
            forall|i: int| 0 <= i < r@.len() ==> (#[trigger] r@[i]).level == murata_level(nv, m0, TransitionId(i as usize)),
            forall|i: int| 0 <= i < r@.len() ==> (#[trigger] r@[i]).k == (if r@[i].level == Liveness::Dead { Some(0usize) } else { None::<usize> }),
            forall|i: int| 0 <= i < r@.len() && (#[trigger] r@[i]).level == Liveness::Dead ==> r@[i].example@.len() == 0,
            forall|i: int| 0 <= i < r@.len() && (#[trigger] r@[i]).level != Liveness::Dead ==> {
                &&& r@[i].example@.len() > 0
                &&& r@[i].example@.last() == TransitionId(i as usize)
                &&& nv.run(m0, r@[i].example@) is Some
                &&& forall|q: Seq<TransitionId>| q.len() > 0 && q.last() == TransitionId(i as usize)
                    && #[trigger] nv.run(m0, q) is Some ==> r@[i].example@.len() <= q.len()
            },
        decreases count - t,
    {
        let id = TransitionId(t);
        let level = if !contains_transition(&from_initial, id) {
            Liveness::Dead
        } else if in_every(&per, id) {
            Liveness::Total
        } else if contains_transition(&in_cycle, id) {
            Liveness::RepeatableForever
        } else {
            Liveness::PotentiallyFirable
        };
        proof {
            let all_g = forall|j: int| 0 <= j < g.nodes.len() ==> #[trigger] fires_in(g, g.nodes[j], id);
            let all_p = forall|j: int| 0 <= j < per@.len() ==> #[trigger] per@[j]@.contains(id);
            if all_p {
                assert forall|j: int| 0 <= j < g.nodes.len() implies #[trigger] fires_in(g, g.nodes[j], id) by {
                    assert(per@[j]@.contains(id));
                };
            }
            if all_g {
                assert forall|j: int| 0 <= j < per@.len() implies #[trigger] per@[j]@.contains(id) by {
                    assert(fires_in(g, g.nodes[j], id));
                };
            }
            assert(level == liveness_level(g, m0, id));
            lemma_liveness_level_of_net(g, nv, m0, id);
        }
        let k = if level == Liveness::Dead { Some(0usize) } else { None };
        let path = firing_path_to(&graph, initial_marking, id);
        proof {
            assert(path is Some <==> level != Liveness::Dead);
        }
        let example = match path {
            Some(p) => {
                proof {
                    let b = choose|b: Seq<usize>| #[trigger] g.labelled_walk(m0, p@, b);
                    lemma_labelled_walk_run(g, nv, m0, m0, p@, b);
                    assert forall|q: Seq<TransitionId>| q.len() > 0 && q.last() == id && #[trigger] nv.run(m0, q) is Some
                        implies p@.len() <= q.len() by {
                        lemma_reachable_self(nv, m0);
                        lemma_run_labelled_walk(g, nv, m0, m0, q);
                        assert(fires_along(g, m0, q));
                    };
                }
                p
            },
            None => Vec::new(),
        };
        r.push(LivenessReport { level, k, example });
        t += 1;
    }
    r
}

/// Like [`liveness_report`], read off the Karp-Miller coverability graph
/// instead of the reachability graph, so it is defined on unbounded nets too.
/// There a transition on a cycle of the coverability graph can fire
/// arbitrarily often (L2) without firing forever (L3); and on nets with
/// inhibitor arcs the graph may show firings the net cannot make.
pub fn liveness_report_covering(net: &PetriNet, initial_marking: &Marking) -> (r: Vec<LivenessReport>)
    requires
        net.wf(),
        net@.within(initial_marking@.len()),
        km_fits(net@, extend(initial_marking@)),
    ensures
        r@.len() == net@.transitions.len(),
        exists|g: GraphView<Seq<ExtendedToken>>| #[trigger] is_coverability_graph(net@, initial_marking@, g)
            && forall|i: int| 0 <= i < r@.len() ==> {
                &&& (#[trigger] r@[i]).level == liveness_level(g, extend(initial_marking@), TransitionId(i as usize))
                &&& r@[i].k == (if r@[i].level == Liveness::Dead { Some(0usize) } else { None::<usize> })
                &&& r@[i].level == Liveness::Dead ==> r@[i].example@.len() == 0
                &&& r@[i].level != Liveness::Dead ==> r@[i].example@.len() > 0
                    && r@[i].example@.last() == TransitionId(i as usize)
                    && fires_along(g, extend(initial_marking@), r@[i].example@)
                &&& r@[i].level != Liveness::Dead ==> forall|q: Seq<TransitionId>| q.len() > 0 && q.last() == TransitionId(i as usize)
                    && #[trigger] fires_along(g, extend(initial_marking@), q) ==> r@[i].example@.len() <= q.len()
            },
{
    let graph = coverability_graph(net, initial_marking);
    liveness_covering_in(net, initial_marking, &graph)
}

/// [`liveness_report_covering`] on the coverability graph `graph` of `net` from `initial_marking`.
pub fn liveness_covering_in(net: &PetriNet, initial_marking: &Marking, graph: &Graph<ExtendedMarking>) -> (r: Vec<LivenessReport>)
    requires
        net.wf(),
        net@.within(initial_marking@.len()),
        graph.wf(),
        is_coverability_graph(net@, initial_marking@, graph@),
    ensures
        r@.len() == net@.transitions.len(),
        forall|i: int| 0 <= i < r@.len() ==> {
                &&& (#[trigger] r@[i]).level == liveness_level(graph@, extend(initial_marking@), TransitionId(i as usize))
                &&& r@[i].k == (if r@[i].level == Liveness::Dead { Some(0usize) } else { None::<usize> })
                &&& r@[i].level == Liveness::Dead ==> r@[i].example@.len() == 0
                &&& r@[i].level != Liveness::Dead ==> r@[i].example@.len() > 0
                    && r@[i].example@.last() == TransitionId(i as usize)
                    && fires_along(graph@, extend(initial_marking@), r@[i].example@)
                &&& r@[i].level != Liveness::Dead ==> forall|q: Seq<TransitionId>| q.len() > 0 && q.last() == TransitionId(i as usize)
                    && #[trigger] fires_along(graph@, extend(initial_marking@), q) ==> r@[i].example@.len() <= q.len()
            },
{
    let initial = ExtendedMarking::from_marking(initial_marking);
    let ghost g = graph@;
    let count = net.transition_count();
    let mut r: Vec<LivenessReport> = Vec::new();
    let mut t: usize = 0;
    while t < count
        invariant
            graph.wf(),
            g == graph@,
            initial@ == extend(initial_marking@),
            count == net@.transitions.len(),
            t <= count,
            r@.len() == t,
            forall|i: int| 0 <= i < r@.len() ==> {
                &&& (#[trigger] r@[i]).level == liveness_level(g, extend(initial_marking@), TransitionId(i as usize))
                &&& r@[i].k == (if r@[i].level == Liveness::Dead { Some(0usize) } else { None::<usize> })
                &&& r@[i].level == Liveness::Dead ==> r@[i].example@.len() == 0
                &&& r@[i].level != Liveness::Dead ==> r@[i].example@.len() > 0
                    && r@[i].example@.last() == TransitionId(i as usize)
                    && fires_along(g, extend(initial_marking@), r@[i].example@)
                &&& r@[i].level != Liveness::Dead ==> forall|q: Seq<TransitionId>| q.len() > 0 && q.last() == TransitionId(i as usize)
                    && #[trigger] fires_along(g, extend(initial_marking@), q) ==> r@[i].example@.len() <= q.len()
            },
        decreases count - t,
    {
        let report = liveness_of(graph, &initial, TransitionId(t));
        r.push(report);
        t += 1;
    }
    proof {
        assert(is_coverability_graph(net@, initial_marking@, g));
    }
    r
}

/// `t` can fire in some marking reachable from `m`.
pub open spec fn net_fires(net: NetView, m: Seq<usize>, t: TransitionId) -> bool {
    exists|x: Seq<usize>| #[trigger] net.reachable(m, x) && net.can_fire(t.0 as int, x)
}

/// Some marking reachable from `m0` enables `t`, and after firing `t` there a
/// firing sequence leads back to that marking, so `t` can fire forever.
pub open spec fn net_repeats(net: NetView, m0: Seq<usize>, t: TransitionId) -> bool {
    exists|x: Seq<usize>|
        #[trigger] net.reachable(m0, x) && net.can_fire(t.0 as int, x)
            && net.reachable(net.transitions[t.0 as int].fire(x), x)
}

/// Liveness level of `t` in `net` from `m0`: dead if it can never fire, total
/// if it can still fire after every reachable marking, repeatable forever if it
/// can fire infinitely often, potentially firable otherwise.
pub open spec fn murata_level(net: NetView, m0: Seq<usize>, t: TransitionId) -> Liveness {
    if !net_fires(net, m0, t) {
        Liveness::Dead
    } else if forall|m: Seq<usize>| net.reachable(m0, m) ==> #[trigger] net_fires(net, m, t) {
        Liveness::Total
    } else if net_repeats(net, m0, t) {
        Liveness::RepeatableForever
    } else {
        Liveness::PotentiallyFirable
    }
}

proof fn lemma_fires_agree(g: GraphView<Seq<usize>>, net: NetView, m0: Seq<usize>, a: Seq<usize>, t: TransitionId)
    requires
        is_reachability_graph(g, net, m0),
        net.transitions.len() <= usize::MAX,
        net.reachable(m0, a),
    ensures
        fires_in(g, a, t) == net_fires(net, a, t),
{
    if fires_in(g, a, t) {
        let x = choose|x: Seq<usize>| #[trigger] g.reaches(a, x)
            && exists|k: int| 0 <= k < g.out(x).len() && #[trigger] g.out(x)[k].0 == t;
        let k = choose|k: int| 0 <= k < g.out(x).len() && #[trigger] g.out(x)[k].0 == t;
        lemma_step_fires(g, net, m0, x, k);
        lemma_reaches_reachable(g, net, m0, a, x);
        assert(net.reachable(a, x) && net.can_fire(t.0 as int, x));
    }
    if net_fires(net, a, t) {
        let x = choose|x: Seq<usize>| #[trigger] net.reachable(a, x) && net.can_fire(t.0 as int, x);
        lemma_reachable_reaches(g, net, m0, a, x);
        lemma_reachable_trans(net, m0, a, x);
        lemma_out_node(g, net, m0, x);
        let k = lemma_successor_of(net, x, t);
        assert(g.out(x)[k].0 == t);
        lemma_fires_in(g, a, x, k, t);
    }
}

proof fn lemma_cycle_agree(g: GraphView<Seq<usize>>, net: NetView, m0: Seq<usize>, t: TransitionId)
    requires
        is_reachability_graph(g, net, m0),
        net.transitions.len() <= usize::MAX,
    ensures
        on_cycle(g, t) == net_repeats(net, m0, t),
{
    if on_cycle(g, t) {
        let (i, k) = choose|i: int, k: int| 0 <= i < g.nodes.len() && 0 <= k < g.edges[i].len()
            && #[trigger] g.edges[i][k].0 == t && g.reaches(g.edges[i][k].1, g.nodes[i]);
        let x = g.nodes[i];
        assert(g.has(x));
        lemma_node_reachable(g, net, m0, x);
        assert(g.edges[i] == net.successors(x));
        lemma_successor(net, x, k);
        let b = g.edges[i][k].1;
        lemma_reachable_step(net, m0, x, t);
        lemma_reaches_reachable(g, net, m0, b, x);
        assert(net.reachable(m0, x) && net.can_fire(t.0 as int, x) && net.reachable(net.transitions[t.0 as int].fire(x), x));
    }
    if net_repeats(net, m0, t) {
        let x = choose|x: Seq<usize>|
            #[trigger] net.reachable(m0, x) && net.can_fire(t.0 as int, x)
                && net.reachable(net.transitions[t.0 as int].fire(x), x);
        lemma_out_node(g, net, m0, x);
        let i = g.index_of(x);
        assert(g.edges[i] == net.successors(g.nodes[i]));
        let k = lemma_successor_of(net, x, t);
        let b = net.transitions[t.0 as int].fire(x);
        lemma_reachable_step(net, m0, x, t);
        lemma_reachable_reaches(g, net, m0, b, x);
        assert(g.edges[i][k].0 == t);
        assert(g.reaches(g.edges[i][k].1, g.nodes[i]));
    }
}

/// A report over the whole net ([`liveness_report`]) agrees with
/// [`liveness_of`] on the net's reachability graph: the levels are the same,
/// and a firing sequence runs along the graph exactly when it runs in the net,
/// so both examples are shortest among the same sequences ending in `t` and
/// have the same length.
pub proof fn lemma_report_agrees_with_graph(g: GraphView<Seq<usize>>, net: NetView, m0: Seq<usize>, t: TransitionId, q: Seq<TransitionId>)
    requires
        is_reachability_graph(g, net, m0),
        net.transitions.len() <= usize::MAX,
    ensures
        liveness_level(g, m0, t) == murata_level(net, m0, t),
        fires_along(g, m0, q) <==> net.run(m0, q) is Some,
{
    lemma_liveness_level_of_net(g, net, m0, t);
    if fires_along(g, m0, q) {
        let b = choose|b: Seq<usize>| #[trigger] g.labelled_walk(m0, q, b);
        crate::reach::lemma_labelled_walk_run(g, net, m0, m0, q, b);
    }
    if net.run(m0, q) is Some {
        lemma_reachable_self(net, m0);
        crate::reach::lemma_run_labelled_walk(g, net, m0, m0, q);
        assert(g.labelled_walk(m0, q, net.run(m0, q).unwrap()));
    }
}

/// On the reachability graph of a net, whatever the order of its nodes, the
/// liveness level read off the graph is the liveness level of the net: a
/// report over the whole net agrees with the level of each transition taken
/// alone on its reachability graph.
pub proof fn lemma_liveness_level_of_net(g: GraphView<Seq<usize>>, net: NetView, m0: Seq<usize>, t: TransitionId)
    requires
        is_reachability_graph(g, net, m0),
        net.transitions.len() <= usize::MAX,
    ensures
        liveness_level(g, m0, t) == murata_level(net, m0, t),
{
    lemma_reachable_self(net, m0);
    lemma_fires_agree(g, net, m0, m0, t);
    lemma_cycle_agree(g, net, m0, t);
    let total_g = forall|i: int| 0 <= i < g.nodes.len() ==> #[trigger] fires_in(g, g.nodes[i], t);
    let total_n = forall|m: Seq<usize>| net.reachable(m0, m) ==> #[trigger] net_fires(net, m, t);
    if total_g {
        assert forall|m: Seq<usize>| net.reachable(m0, m) implies #[trigger] net_fires(net, m, t) by {
            lemma_out_node(g, net, m0, m);
            let i = g.index_of(m);
            assert(fires_in(g, g.nodes[i], t));
            lemma_fires_agree(g, net, m0, m, t);
        };
    }
    if total_n {
        assert forall|i: int| 0 <= i < g.nodes.len() implies #[trigger] fires_in(g, g.nodes[i], t) by {
            assert(g.has(g.nodes[i]));
            lemma_node_reachable(g, net, m0, g.nodes[i]);
            assert(net_fires(net, g.nodes[i], t));
            lemma_fires_agree(g, net, m0, g.nodes[i], t);
        };
    }
    assert(total_g == total_n);
}

/// A transition the coverability graph rates dead never fires: when the net
/// has no inhibitor arc, no marking reachable from `m0` enables it, so a
/// `Dead` rating of [`liveness_report_covering`] is exact.
pub proof fn lemma_covering_dead(
    net: NetView,
    m0: Seq<usize>,
    g: GraphView<Seq<ExtendedToken>>,
    t: TransitionId,
    m: Seq<usize>,
)
    requires
        is_coverability_graph(net, m0, g),
        net.wf(),
        net.within(m0.len()),
        net.transitions.len() <= usize::MAX,
        crate::coverability::no_inhibit(net),
        net.fits_from(m0),
        liveness_level(g, extend(m0), t) == Liveness::Dead,
        net.reachable(m0, m),
    ensures
        !net.can_fire(t.0 as int, m),
{
    if net.can_fire(t.0 as int, m) {
        crate::coverability::lemma_coverability_covers(net, m0, g, m);
        let i = choose|i: int| 0 <= i < g.nodes.len() && crate::coverability::covers(#[trigger] g.nodes[i], m);
        let x = g.nodes[i];
        let a = net.transitions[t.0 as int];
        let ts = choose|ts: Seq<TransitionId>| #[trigger] net.run(m0, ts) == Some(m);
        crate::net::lemma_run_len(net, m0, ts);
        assert(a.within(m.len()));
        assert(forall|j: int| 0 <= j < a.inputs.len() ==> #[trigger] a.inputs[j].1 != crate::net::ArcKind::Inhibit);
        crate::coverability::lemma_enabled_covered(a, m, x);
        assert(g.has(x));
        let anc = crate::coverability::lemma_node_children(net, m0, g, x);
        crate::coverability::lemma_ext_enabled_upto(net, x, net.transitions.len());
        let ids = crate::coverability::ext_enabled_ids(net, x);
        assert(ids.contains(TransitionId(t.0)));
        let k = choose|k: int| 0 <= k < ids.len() && ids[k] == TransitionId(t.0);
        assert(g.out(x)[k].0 == t);
        assert(g.reaches(extend(m0), x)) by {
            assert(anc.len() >= 1 && anc[0] == extend(m0) && anc.last() == x && g.is_walk(anc));
        };
        lemma_fires_in(g, extend(m0), x, k, t);
    }
}

} // verus!
