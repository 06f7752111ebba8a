use vstd::prelude::*;

use crate::coverability::{coverability_graph, extend, is_coverability_graph, km_fits, lemma_finite_dead_node, lemma_omega_means_unbounded, no_inhibit, omega_free, ExtendedMarking, ExtendedToken};
use crate::graph::{contains_state, edges_view, lemma_unique_within, views, Graph, GraphView, State};
use crate::liveness::{bfs_depth, bfs_layered, found_within, lemma_bfs_expanded, lemma_bfs_start, bfs_path, bfs_reconstruct, lemma_bfs_path_prefix, lemma_bfs_push, lemma_bfs_walk_bound, link_from};
use crate::marking::{ByMarking, Marking};
use crate::net::{lemma_reachable_self, NetView, PetriNet, TransitionId};
use crate::reach::{
    lemma_run_labelled_walk, is_reachability_graph, lemma_labelled_walk_run, lemma_node_reachable, lemma_out_node, lemma_reachable_reaches,
    lemma_successor, lemma_successor_of,
};

verus! {

/// `d` lists the dead ends of `g` (nodes without an outgoing edge), each once,
/// each with a shortest firing sequence that leads to it from `init` when
/// `init` reaches it, and with no firing at all otherwise.
pub open spec fn dead_ends_of<V>(g: GraphView<V>, init: V, d: Seq<(V, Seq<TransitionId>)>) -> bool {
    &&& forall|a: int, b: int| 0 <= a < b < d.len() ==> (#[trigger] d[a]).0 != (#[trigger] d[b]).0
    &&& forall|j: int| 0 <= j < d.len() ==> g.has((#[trigger] d[j]).0) && g.out(d[j].0).len() == 0
    &&& forall|i: int| 0 <= i < g.nodes.len() && (#[trigger] g.edges[i]).len() == 0
        ==> exists|j: int| 0 <= j < d.len() && (#[trigger] d[j]).0 == g.nodes[i]
    &&& forall|j: int| 0 <= j < d.len() && g.reaches(init, (#[trigger] d[j]).0) ==> g.labelled_walk(init, d[j].1, d[j].0)
    &&& forall|j: int| 0 <= j < d.len() && !g.reaches(init, (#[trigger] d[j]).0) ==> d[j].1.len() == 0
    &&& forall|j: int, q: Seq<TransitionId>| 0 <= j < d.len() && #[trigger] g.labelled_walk(init, q, (#[trigger] d[j]).0) ==> d[j].1.len() <= q.len()
}

/// View of a list of dead ends.
pub open spec fn dead_view<M: View>(r: Seq<(M, Vec<TransitionId>)>) -> Seq<(M::V, Seq<TransitionId>)> {
    r.map_values(|e: (M, Vec<TransitionId>)| (e.0@, e.1@))
}

/// A breadth-first search of `graph` from `from`: every state it reaches, each
/// once and `from` first, with a parent link per state (none for `from`) whose
/// labels spell a firing sequence leading to it.
#[verifier::spinoff_prover]
#[verifier::rlimit(100)]
pub fn bfs_tree<M: State>(graph: &Graph<M>, from: &M) -> (r: (Vec<M>, Vec<Option<(TransitionId, usize)>>))
    requires
        graph.wf(),
    ensures
        r.0@.len() == r.1@.len(),
        r.0@.len() >= 1,
        r.0@[0]@ == from@,
        views(r.0@).no_duplicates(),
        forall|x: M::V| views(r.0@).contains(x) <==> graph@.reaches(from@, x),
        forall|j: int| 0 <= j < r.1@.len() && (#[trigger] r.1@[j]) is Some ==> link_from(r.1@[j]) < j,
        forall|j: int| 0 <= j < r.0@.len() ==> graph@.labelled_walk(from@, bfs_path(r.1@, j), #[trigger] r.0@[j]@),
        bfs_layered(graph@, from@, views(r.0@), r.1@, r.0@.len() as int),
{
    let ghost g = graph@;
    let ghost u = g.universe(from@);
    let mut visited: Vec<M> = Vec::new();
    visited.push(from.state_clone());
    let mut parent: Vec<Option<(TransitionId, usize)>> = Vec::new();
    parent.push(None);
    let mut head: usize = 0;
    proof {
        assert(views(visited@) =~= seq![from@]);
        assert(bfs_path(parent@, 0) =~= Seq::<TransitionId>::empty());
        assert(g.labelled_walk(from@, Seq::<TransitionId>::empty(), from@));
        lemma_bfs_start(g, from@, views(visited@), parent@);
    }
    while head < visited.len()
        invariant
            graph.wf(),
            g == graph@,
            u == g.universe(from@),
            visited@.len() == parent@.len(),
            visited@.len() >= 1,
            visited@[0]@ == from@,
            views(visited@).no_duplicates(),
            forall|j: int| 0 <= j < visited@.len() ==> u.contains(#[trigger] views(visited@)[j]),
            forall|j: int| 0 <= j < parent@.len() && (#[trigger] parent@[j]) is Some ==> link_from(parent@[j]) < j,
            forall|j: int| 0 <= j < visited@.len() ==> g.labelled_walk(from@, bfs_path(parent@, j), #[trigger] visited@[j]@),
            head <= visited@.len(),
            forall|j: int, k: int| 0 <= j < head && 0 <= k < g.out(visited@[j]@).len()
                ==> views(visited@).contains((#[trigger] g.out(visited@[j]@)[k]).1),
            bfs_layered(g, from@, views(visited@), parent@, head as int),
            head < visited@.len() ==> forall|j: int| 0 <= j < visited@.len() ==> #[trigger] bfs_depth(parent@, j) <= bfs_depth(parent@, head as int) + 1,
        decreases u.len() - head,
    {
        proof {
            assert(u.contains(views(visited@)[head as int]));
            lemma_unique_within(views(visited@), u);
        }
        let current = visited[head].state_clone();
        match graph.get(&current) {
            Some(edges) => {
                let mut k: usize = 0;
                while k < edges.len()
                    invariant
                        graph.wf(),
                        g == graph@,
                        u == g.universe(from@),
                        current@ == visited@[head as int]@,
                        edges_view(edges@) == g.out(current@),
                        g.has(current@),
                        head < visited@.len(),
                        visited@.len() == parent@.len(),
                        visited@[0]@ == from@,
                        views(visited@).no_duplicates(),
                        forall|j: int| 0 <= j < visited@.len() ==> u.contains(#[trigger] views(visited@)[j]),
                        forall|j: int| 0 <= j < parent@.len() && (#[trigger] parent@[j]) is Some ==> link_from(parent@[j]) < j,
                        forall|j: int| 0 <= j < visited@.len() ==> g.labelled_walk(from@, bfs_path(parent@, j), #[trigger] visited@[j]@),
                        forall|j: int, kk: int| 0 <= j < head && 0 <= kk < g.out(visited@[j]@).len()
                            ==> views(visited@).contains((#[trigger] g.out(visited@[j]@)[kk]).1),
                        k <= edges@.len(),
                        forall|kk: int| 0 <= kk < k ==> views(visited@).contains((#[trigger] g.out(current@)[kk]).1),
                        bfs_layered(g, from@, views(visited@), parent@, head as int),
                        forall|j: int| 0 <= j < visited@.len() ==> #[trigger] bfs_depth(parent@, j) <= bfs_depth(parent@, head as int) + 1,
                        forall|kk: int| 0 <= kk < k ==> found_within(views(visited@), parent@, (#[trigger] g.out(current@)[kk]).1, bfs_depth(parent@, head as int) + 1),
                    decreases edges@.len() - k,
                {
                    let (t, next) = &edges[k];
                    proof {
                        assert(g.out(current@)[k as int] == (*t, next@));
                    }
                    if !contains_state(&visited, next) {
                        let ghost old_visited = visited@;
                        let ghost old_parent = parent@;
                        proof {
                            assert(g.out(current@)[k as int].1 == next@);
                            g.lemma_step_target(current@, next@);
                        }
                        visited.push(next.state_clone());
                        parent.push(Some((*t, head)));
                        proof {
                            let nv = visited@.len() - 1;
                            assert(views(visited@) =~= views(old_visited).push(next@));
                            assert(views(visited@).no_duplicates()) by {
                                assert forall|a: int, b: int| 0 <= a < b < views(visited@).len()
                                    implies views(visited@)[a] != views(visited@)[b] by {
                                    if b == nv {
                                        assert(views(old_visited)[a] == views(visited@)[a]);
                                    }
                                };
                            };
                            assert forall|x: M::V| views(old_visited).contains(x) implies views(visited@).contains(x) by {
                                let j = choose|j: int| 0 <= j < views(old_visited).len() && views(old_visited)[j] == x;
                                assert(views(visited@)[j] == x);
                            };
                            assert(views(visited@)[nv] == next@);
                            assert forall|j: int| 0 <= j < visited@.len()
                                implies g.labelled_walk(from@, bfs_path(parent@, j), #[trigger] visited@[j]@) by {
                                if j < nv {
                                    assert(visited@[j] == old_visited[j]);
                                    assert(bfs_path(parent@, j) == bfs_path(old_parent, j)) by {
                                        lemma_bfs_path_prefix(old_parent, parent@, j);
                                    };
                                } else {
                                    assert(parent@[j] == Some((*t, head)));
                                    assert(bfs_path(parent@, j) == bfs_path(parent@, head as int).push(*t));
                                    lemma_bfs_path_prefix(old_parent, parent@, head as int);
                                    assert(visited@[head as int] == old_visited[head as int]);
                                    g.lemma_labelled_walk_push(from@, bfs_path(old_parent, head as int), current@, k as int);
                                }
                            };
                            assert forall|j: int| 0 <= j < visited@.len() implies u.contains(#[trigger] views(visited@)[j]) by {
                                if j < nv {
                                    assert(views(visited@)[j] == views(old_visited)[j]);
                                }
                            };
                            assert forall|j: int| 0 <= j < parent@.len() && (#[trigger] parent@[j]) is Some
                                implies link_from(parent@[j]) < j by {
                                if j < nv {
                                    assert(parent@[j] == old_parent[j]);
                                }
                            };
                            assert(visited@[head as int] == old_visited[head as int]);
                            assert(visited@[0] == old_visited[0]);
                            assert forall|j: int, kk: int| 0 <= j < head && 0 <= kk < g.out(visited@[j]@).len()
                                implies views(visited@).contains((#[trigger] g.out(visited@[j]@)[kk]).1) by {
                                assert(visited@[j] == old_visited[j]);
                                assert(views(old_visited).contains(g.out(old_visited[j]@)[kk].1));
                            };
                            assert forall|kk: int| 0 <= kk < k implies views(visited@).contains((#[trigger] g.out(current@)[kk]).1) by {
                                assert(views(old_visited).contains(g.out(current@)[kk].1));
                            };
                            lemma_bfs_push(g, from@, views(old_visited), old_parent, head, next@, *t);
                            assert(views(visited@) == views(old_visited).push(next@));
                            assert(parent@ == old_parent.push(Some((*t, head))));
                            assert forall|kk: int| 0 <= kk < k implies found_within(views(visited@), parent@, (#[trigger] g.out(current@)[kk]).1, bfs_depth(parent@, head as int) + 1) by {
                                assert(found_within(views(old_visited), old_parent, g.out(current@)[kk].1, bfs_depth(old_parent, head as int) + 1));
                                let i = choose|i: int| 0 <= i < views(old_visited).len() && views(old_visited)[i] == g.out(current@)[kk].1
                                    && bfs_depth(old_parent, i) <= bfs_depth(old_parent, head as int) + 1;
                                assert(views(visited@)[i] == views(old_visited)[i]);
                            };
                            assert(views(visited@)[views(visited@).len() - 1] == next@);
                        }
                    }
                    proof {
                        assert(views(visited@).contains(next@));
                        let i = choose|i: int| 0 <= i < views(visited@).len() && views(visited@)[i] == next@;
                        assert(g.out(current@)[k as int].1 == next@);
                        assert(bfs_depth(parent@, i) <= bfs_depth(parent@, head as int) + 1);
                        assert(found_within(views(visited@), parent@, g.out(current@)[k as int].1, bfs_depth(parent@, head as int) + 1));
                    }
                    k += 1;
                }
            },
            None => {
                proof {
                    assert(g.out(current@).len() == 0);
                }
            },
        }
        proof {
            assert forall|j: int, kk: int| 0 <= j <= head && 0 <= kk < g.out(visited@[j]@).len()
                implies views(visited@).contains((#[trigger] g.out(visited@[j]@)[kk]).1) by {
                if j == head {
                    assert(visited@[j]@ == current@);
                }
            };
            let vs = views(visited@);
            assert(vs[head as int] == current@);
            assert forall|kk: int| 0 <= kk < g.out(vs[head as int]).len() implies found_within(vs, parent@, (#[trigger] g.out(vs[head as int])[kk]).1, bfs_depth(parent@, head as int) + 1) by {
                assert(g.out(vs[head as int])[kk] == g.out(current@)[kk]);
            };
            lemma_bfs_expanded(g, from@, vs, parent@, head as int);
        }
        head += 1;
    }
    proof {
        let s = views(visited@).to_set();
        assert forall|x: M::V, y: M::V| s.contains(x) && #[trigger] g.step(x, y) implies s.contains(y) by {
            let j = choose|j: int| 0 <= j < views(visited@).len() && views(visited@)[j] == x;
            let kk = choose|kk: int| 0 <= kk < g.out(x).len() && #[trigger] g.out(x)[kk].1 == y;
            assert(visited@[j]@ == x);
            assert(views(visited@).contains(g.out(visited@[j]@)[kk].1));
        };
        assert(views(visited@)[0] == from@);
        assert forall|x: M::V| views(visited@).contains(x) <==> g.reaches(from@, x) by {
            if g.reaches(from@, x) {
                g.lemma_closed_reaches(s, from@, x);
            }
            if views(visited@).contains(x) {
                let j = choose|j: int| 0 <= j < views(visited@).len() && views(visited@)[j] == x;
                assert(visited@[j]@ == x);
                g.lemma_labelled_walk_reaches(from@, bfs_path(parent@, j), x);
            }
        };
    }
    (visited, parent)
}

/// Position of a state equal to `x` in `v`, if any.
fn position_of<M: State>(v: &Vec<M>, x: &M) -> (r: Option<usize>)
    ensures
        match r {
            Some(j) => j < v@.len() && v@[j as int]@ == x@,
            None => !views(v@).contains(x@),
        },
{
    let mut j: usize = 0;
    while j < v.len()
        invariant
            j <= v@.len(),
            forall|i: int| 0 <= i < j ==> v@[i]@ != x@,
        decreases v@.len() - j,
    {
        if v[j].state_eq(x) {
            return Some(j);
        }
        j += 1;
    }
    proof {
        if views(v@).contains(x@) {
            let i = choose|i: int| 0 <= i < views(v@).len() && views(v@)[i] == x@;
            assert(v@[i]@ == x@);
        }
    }
    None
}

/// Every dead end of `graph` (a node without an outgoing edge), each once and
/// in node order, paired with a shortest firing sequence that leads to it from
/// `initial` (found breadth first; empty when `initial` does not reach it).
pub fn dead_ends_from<M: State>(graph: &Graph<M>, initial: &M) -> (r: Vec<(M, Vec<TransitionId>)>)
    requires
        graph.wf(),
        graph@.has(initial@),
    ensures
        dead_ends_of(graph@, initial@, dead_view(r@)),
{
    let ghost g = graph@;
    let (visited, parent) = bfs_tree(graph, initial);
    let n = graph.len();
    let mut r: Vec<(M, Vec<TransitionId>)> = Vec::new();
    let mut i: usize = 0;
    while i < n
        invariant
            graph.wf(),
            g == graph@,
            n == g.nodes.len(),
            i <= n,
            visited@.len() == parent@.len(),
            forall|x: M::V| views(visited@).contains(x) <==> g.reaches(initial@, x),
            forall|j: int| 0 <= j < parent@.len() && (#[trigger] parent@[j]) is Some ==> link_from(parent@[j]) < j,
            forall|j: int| 0 <= j < visited@.len() ==> g.labelled_walk(initial@, bfs_path(parent@, j), #[trigger] visited@[j]@),
            forall|j: int| 0 <= j < r@.len() ==> exists|ii: int| 0 <= ii < i && #[trigger] g.nodes[ii] == (#[trigger] r@[j]).0@,
            forall|a: int, b: int| 0 <= a < b < r@.len() ==> (#[trigger] r@[a]).0@ != (#[trigger] r@[b]).0@,
            forall|j: int| 0 <= j < r@.len() ==> g.has((#[trigger] r@[j]).0@) && g.out(r@[j].0@).len() == 0,
            forall|ii: int| 0 <= ii < i && (#[trigger] g.edges[ii]).len() == 0
                ==> exists|j: int| 0 <= j < r@.len() && (#[trigger] r@[j]).0@ == g.nodes[ii],
            forall|j: int| 0 <= j < r@.len() && g.reaches(initial@, (#[trigger] r@[j]).0@)
                ==> g.labelled_walk(initial@, r@[j].1@, r@[j].0@),
            forall|j: int| 0 <= j < r@.len() && !g.reaches(initial@, (#[trigger] r@[j]).0@) ==> r@[j].1@.len() == 0,
            views(visited@).no_duplicates(),
            bfs_layered(g, initial@, views(visited@), parent@, visited@.len() as int),
            forall|j: int, q: Seq<TransitionId>| 0 <= j < r@.len() && #[trigger] g.labelled_walk(initial@, q, (#[trigger] r@[j]).0@)
                ==> r@[j].1@.len() <= q.len(),
        decreases n - i,
    {
        let edges = graph.edges(i);
        if edges.len() == 0 {
            let dead = graph.key(i);
            let path = match position_of(&visited, dead) {
                Some(j) => {
                    proof {
                        assert(views(visited@)[j as int] == dead@);
                        assert(views(visited@).contains(dead@));
                        assert forall|q: Seq<TransitionId>| #[trigger] g.labelled_walk(initial@, q, dead@)
                            implies bfs_depth(parent@, j as int) <= q.len() by {
                            lemma_bfs_walk_bound(g, initial@, views(visited@), parent@, visited@.len() as int, q, dead@);
                            let k = choose|k: int| 0 <= k < views(visited@).len() && views(visited@)[k] == dead@ && bfs_depth(parent@, k) <= q.len();
                            assert(views(visited@).no_duplicates());
                        };
                    }
                    bfs_reconstruct(&parent, j)
                },
                None => Vec::new(),
            };
            proof {
                assert forall|q: Seq<TransitionId>| #[trigger] g.labelled_walk(initial@, q, dead@) implies path@.len() <= q.len() by {
                    g.lemma_labelled_walk_reaches(initial@, q, dead@);
                };
            }
            proof {
                if !g.reaches(initial@, dead@) {
                    assert(path@.len() == 0);
                }
            }
            proof {
                assert(g.nodes[i as int] == dead@);
                assert(g.has(dead@));
                assert(g.index_of(dead@) == i) by {
                    assert(g.nodes.no_duplicates());
                };
                if g.reaches(initial@, dead@) {
                    assert(views(visited@).contains(dead@));
                }
            }
            let ghost prev = r@;
            r.push((dead.state_clone(), path));
            proof {
                let last = r@.len() - 1;
                assert(r@[last].0@ == g.nodes[i as int]);
                assert forall|j: int| 0 <= j < r@.len() implies exists|ii: int| 0 <= ii < i + 1 && #[trigger] g.nodes[ii] == (#[trigger] r@[j]).0@ by {
                    if j < last {
                        assert(r@[j] == prev[j]);
                        let ii = choose|ii: int| 0 <= ii < i && #[trigger] g.nodes[ii] == prev[j].0@;
                        assert(g.nodes[ii] == r@[j].0@);
                    } else {
                        assert(g.nodes[i as int] == r@[j].0@);
                    }
                };
                assert forall|a: int, b: int| 0 <= a < b < r@.len() implies (#[trigger] r@[a]).0@ != (#[trigger] r@[b]).0@ by {
                    if b == last {
                        assert(r@[a] == prev[a]);
                        let ii = choose|ii: int| 0 <= ii < i && #[trigger] g.nodes[ii] == prev[a].0@;
                        assert(g.nodes.no_duplicates());
                    } else {
                        assert(r@[a] == prev[a] && r@[b] == prev[b]);
                    }
                };
                assert forall|ii: int| 0 <= ii < i + 1 && (#[trigger] g.edges[ii]).len() == 0
                    implies exists|j: int| 0 <= j < r@.len() && (#[trigger] r@[j]).0@ == g.nodes[ii] by {
                    if ii < i {
                        let j = choose|j: int| 0 <= j < prev.len() && (#[trigger] prev[j]).0@ == g.nodes[ii];
                        assert(r@[j] == prev[j]);
                    } else {
                        assert(r@[last].0@ == g.nodes[ii]);
                    }
                };
                assert forall|j: int| 0 <= j < r@.len() implies g.has((#[trigger] r@[j]).0@) && g.out(r@[j].0@).len() == 0 by {
                    if j < last {
                        assert(r@[j] == prev[j]);
                    }
                };
                assert forall|j: int| 0 <= j < r@.len() && g.reaches(initial@, (#[trigger] r@[j]).0@)
                    implies g.labelled_walk(initial@, r@[j].1@, r@[j].0@) by {
                    if j < last {
                        assert(r@[j] == prev[j]);
                    }
                };
                assert forall|j: int| 0 <= j < r@.len() && !g.reaches(initial@, (#[trigger] r@[j]).0@)
                    implies r@[j].1@.len() == 0 by {
                    if j < last {
                        assert(r@[j] == prev[j]);
                    }
                };
                assert forall|j: int, q: Seq<TransitionId>| 0 <= j < r@.len() && #[trigger] g.labelled_walk(initial@, q, (#[trigger] r@[j]).0@)
                    implies r@[j].1@.len() <= q.len() by {
                    if j < last {
                        assert(r@[j] == prev[j]);
                    }
                };
            }
        } else {
            proof {
                assert forall|ii: int| 0 <= ii < i + 1 && (#[trigger] g.edges[ii]).len() == 0
                    implies exists|j: int| 0 <= j < r@.len() && (#[trigger] r@[j]).0@ == g.nodes[ii] by {
                    assert(ii != i);
                };
                assert forall|j: int| 0 <= j < r@.len() implies exists|ii: int| 0 <= ii < i + 1 && #[trigger] g.nodes[ii] == (#[trigger] r@[j]).0@ by {
                    let ii = choose|ii: int| 0 <= ii < i && #[trigger] g.nodes[ii] == r@[j].0@;
                    assert(g.nodes[ii] == r@[j].0@);
                };
            }
        }
        i += 1;
    }
    proof {
        let d = dead_view(r@);
        assert forall|j: int| 0 <= j < d.len() implies (#[trigger] d[j]) == (r@[j].0@, r@[j].1@) by {};
        assert forall|a: int, b: int| 0 <= a < b < d.len() implies (#[trigger] d[a]).0 != (#[trigger] d[b]).0 by {
            assert(r@[a].0@ != r@[b].0@);
        };
        assert forall|i: int| 0 <= i < g.nodes.len() && (#[trigger] g.edges[i]).len() == 0
            implies exists|j: int| 0 <= j < d.len() && (#[trigger] d[j]).0 == g.nodes[i] by {
            let j = choose|j: int| 0 <= j < r@.len() && (#[trigger] r@[j]).0@ == g.nodes[i];
            assert(d[j].0 == g.nodes[i]);
        };
        assert forall|j: int, q: Seq<TransitionId>| 0 <= j < d.len() && #[trigger] g.labelled_walk(initial@, q, (#[trigger] d[j]).0)
            implies d[j].1.len() <= q.len() by {
            assert(d[j] == (r@[j].0@, r@[j].1@));
        };
    }
    r
}

/// No transition of `net` is enabled in `m`.
pub open spec fn is_dead(net: NetView, m: Seq<usize>) -> bool {
    forall|t: int| !#[trigger] net.can_fire(t, m)
}

/// The extended marking `x` holds no `Omega` and stands for a deadlock: a
/// marking reachable from `m0` in which no transition is enabled.
pub open spec fn stands_for_deadlock(net: NetView, m0: Seq<usize>, x: Seq<ExtendedToken>) -> bool {
    exists|m: Seq<usize>| net.reachable(m0, m) && extend(m) == x && is_dead(net, m)
}

/// The dead markings reachable from `initial_marking`, in the order the
/// reachability graph holds them, each with a shortest firing sequence.
fn deadlocks_found(net: &PetriNet, initial_marking: &Marking) -> (r: Vec<(Marking, Vec<TransitionId>)>)
    requires
        net.wf(),
        net@.within(initial_marking@.len()),
        net@.reachable_set(initial_marking@).finite(),
        net@.fits_from(initial_marking@),
    ensures
        forall|a: int, b: int| 0 <= a < b < r@.len() ==> (#[trigger] r@[a]).0@ != (#[trigger] r@[b]).0@,
        forall|m: Seq<usize>| (exists|j: int| 0 <= j < r@.len() && (#[trigger] r@[j]).0@ == m)
            <==> (net@.reachable(initial_marking@, m) && is_dead(net@, m)),
        forall|j: int| 0 <= j < r@.len() ==> net@.run(initial_marking@, (#[trigger] r@[j]).1@) == Some(r@[j].0@),
        forall|j: int, q: Seq<TransitionId>| 0 <= j < r@.len() && #[trigger] net@.run(initial_marking@, q) == Some((#[trigger] r@[j]).0@)
            ==> r@[j].1@.len() <= q.len(),
{
    let ghost m0 = initial_marking@;
    let ghost nv = net@;
    let graph = net.reachable_markings(initial_marking);
    let ghost g = graph@;
    proof {
        net.lemma_wf();
        assert(is_reachability_graph(g, nv, m0));
        lemma_reachable_self(nv, m0);
        lemma_out_node(g, nv, m0, m0);
    }
    let r = dead_ends_from(&graph, initial_marking);
    proof {
        let d = dead_view(r@);
        assert forall|j: int| 0 <= j < r@.len() implies (#[trigger] d[j]) == (r@[j].0@, r@[j].1@) by {};
        assert forall|a: int, b: int| 0 <= a < b < r@.len() implies (#[trigger] r@[a]).0@ != (#[trigger] r@[b]).0@ by {
            assert(d[a].0 != d[b].0);
        };
        assert forall|m: Seq<usize>| (exists|j: int| 0 <= j < r@.len() && (#[trigger] r@[j]).0@ == m)
            <==> (nv.reachable(m0, m) && is_dead(nv, m)) by {
            if exists|j: int| 0 <= j < r@.len() && (#[trigger] r@[j]).0@ == m {
                let j = choose|j: int| 0 <= j < r@.len() && (#[trigger] r@[j]).0@ == m;
                assert(d[j].0 == m);
                lemma_node_reachable(g, nv, m0, m);
                lemma_out_node(g, nv, m0, m);
                assert forall|t: int| !#[trigger] nv.can_fire(t, m) by {
                    if nv.can_fire(t, m) {
                        let k = lemma_successor_of(nv, m, TransitionId(t as usize));
                    }
                };
            }
            if nv.reachable(m0, m) && is_dead(nv, m) {
                lemma_out_node(g, nv, m0, m);
                if nv.successors(m).len() > 0 {
                    lemma_successor(nv, m, 0);
                    assert(nv.can_fire(nv.successors(m)[0].0.0 as int, m));
                }
                let i = g.index_of(m);
                assert(g.edges[i] == nv.successors(g.nodes[i]));
                assert(g.edges[i].len() == 0);
                let j = choose|j: int| 0 <= j < d.len() && (#[trigger] d[j]).0 == g.nodes[i];
                assert(r@[j].0@ == m);
            }
        };
        assert forall|j: int| 0 <= j < r@.len() implies nv.run(m0, (#[trigger] r@[j]).1@) == Some(r@[j].0@) by {
            assert(d[j] == (r@[j].0@, r@[j].1@));
            lemma_node_reachable(g, nv, m0, d[j].0);
            lemma_reachable_reaches(g, nv, m0, m0, d[j].0);
            lemma_labelled_walk_run(g, nv, m0, m0, d[j].1, d[j].0);
        };
        assert forall|j: int, q: Seq<TransitionId>| 0 <= j < r@.len() && #[trigger] nv.run(m0, q) == Some((#[trigger] r@[j]).0@)
            implies r@[j].1@.len() <= q.len() by {
            assert(d[j] == (r@[j].0@, r@[j].1@));
            lemma_run_labelled_walk(g, nv, m0, m0, q);
        };
    }
    r
}

/// Every dead marking reachable from `initial_marking` (one in which no
/// transition is enabled), each once, in the order of markings, paired with a
/// shortest firing sequence that reaches it. Only defined when finitely many
/// markings are reachable and firing stays within `usize`.
pub fn deadlocks(net: &PetriNet, initial_marking: &Marking) -> (r: Vec<(Marking, Vec<TransitionId>)>)
    requires
        net.wf(),
        net@.within(initial_marking@.len()),
        net@.reachable_set(initial_marking@).finite(),
        net@.fits_from(initial_marking@),
    ensures
        crate::marking::in_marking_order(r@),
        forall|a: int, b: int| 0 <= a < b < r@.len() ==> (#[trigger] r@[a]).0@ != (#[trigger] r@[b]).0@,
        forall|m: Seq<usize>| (exists|j: int| 0 <= j < r@.len() && (#[trigger] r@[j]).0@ == m)
            <==> (net@.reachable(initial_marking@, m) && is_dead(net@, m)),
        forall|j: int| 0 <= j < r@.len() ==> net@.run(initial_marking@, (#[trigger] r@[j]).1@) == Some(r@[j].0@),
        forall|j: int, q: Seq<TransitionId>| 0 <= j < r@.len() && #[trigger] net@.run(initial_marking@, q) == Some((#[trigger] r@[j]).0@)
            ==> r@[j].1@.len() <= q.len(),
{
    let found = deadlocks_found(net, initial_marking);
    let r = crate::marking::sort_by_marking(found);
    proof {
        let (perm, inv) = choose|perm: Seq<int>, inv: Seq<int>| #[trigger] crate::marking::placed(found@, 0, r@, perm, inv);
        assert forall|a: int, b: int| 0 <= a < b < r@.len() implies (#[trigger] r@[a]).0@ != (#[trigger] r@[b]).0@ by {
            crate::marking::lemma_marking_order(r@[a].0@, r@[b].0@, r@[b].0@);
            assert(crate::marking::marking_lt(r@[a].marking_key(), r@[b].marking_key()));
        };
        assert forall|m: Seq<usize>| (exists|j: int| 0 <= j < r@.len() && (#[trigger] r@[j]).0@ == m)
            <==> (net@.reachable(initial_marking@, m) && is_dead(net@, m)) by {
            if exists|j: int| 0 <= j < r@.len() && (#[trigger] r@[j]).0@ == m {
                let j = choose|j: int| 0 <= j < r@.len() && (#[trigger] r@[j]).0@ == m;
                assert(r@[j] == found@[perm[j]]);
            }
            if net@.reachable(initial_marking@, m) && is_dead(net@, m) {
                let j = choose|j: int| 0 <= j < found@.len() && (#[trigger] found@[j]).0@ == m;
                assert(r@[inv[j]] == found@[j]);
            }
        };
        assert forall|j: int| 0 <= j < r@.len() implies net@.run(initial_marking@, (#[trigger] r@[j]).1@) == Some(r@[j].0@) by {
            assert(r@[j] == found@[perm[j]]);
        };
        assert forall|j: int, q: Seq<TransitionId>| 0 <= j < r@.len() && #[trigger] net@.run(initial_marking@, q) == Some((#[trigger] r@[j]).0@)
            implies r@[j].1@.len() <= q.len() by {
            assert(r@[j] == found@[perm[j]]);
        };
    }
    r
}

/// Like [`deadlocks`], over the Karp-Miller coverability graph, so it is
/// defined on unbounded nets too: one firing sequence per dead node of that
/// graph, without the node itself (a node may hold ω, which stands for no
/// single marking). A dead node without ω stands for a real deadlock, and on a
/// net without inhibitor arcs whose counts stay within `usize` no node holds ω;
/// on nets with inhibitor arcs a dead node with ω need not stand for one.
pub fn deadlocks_covering(net: &PetriNet, initial_marking: &Marking) -> (r: Vec<Vec<TransitionId>>)
    requires
        net.wf(),
        net@.within(initial_marking@.len()),
        km_fits(net@, extend(initial_marking@)),
    ensures
        exists|g: GraphView<Seq<ExtendedToken>>, d: Seq<(Seq<ExtendedToken>, Seq<TransitionId>)>|
            #[trigger] is_coverability_graph(net@, initial_marking@, g)
            && #[trigger] dead_ends_of(g, extend(initial_marking@), d)
            && r@.len() == d.len()
            && (forall|j: int| 0 <= j < d.len() ==> (#[trigger] r@[j])@ == d[j].1)
            && (forall|j: int| 0 <= j < d.len() && omega_free((#[trigger] d[j]).0)
                ==> stands_for_deadlock(net@, initial_marking@, d[j].0))
            && (no_inhibit(net@) && net@.fits_from(initial_marking@) ==> forall|j: int| 0 <= j < d.len()
                ==> omega_free((#[trigger] d[j]).0)),
{
    let graph = coverability_graph(net, initial_marking);
    deadlocks_covering_in(net, initial_marking, &graph)
}

/// [`deadlocks_covering`] on the coverability graph `graph` of `net` from `initial_marking`.
pub fn deadlocks_covering_in(net: &PetriNet, initial_marking: &Marking, graph: &Graph<ExtendedMarking>) -> (r: Vec<Vec<TransitionId>>)
    requires
        net.wf(),
        net@.within(initial_marking@.len()),
        graph.wf(),
        is_coverability_graph(net@, initial_marking@, graph@),
    ensures
        exists|d: Seq<(Seq<ExtendedToken>, Seq<TransitionId>)>|
            #[trigger] dead_ends_of(graph@, extend(initial_marking@), d)
            && r@.len() == d.len()
            && (forall|j: int| 0 <= j < d.len() ==> (#[trigger] r@[j])@ == d[j].1)
            && (forall|j: int| 0 <= j < d.len() && omega_free((#[trigger] d[j]).0)
                ==> stands_for_deadlock(net@, initial_marking@, d[j].0))
            && (no_inhibit(net@) && net@.fits_from(initial_marking@) ==> forall|j: int| 0 <= j < d.len()
                ==> omega_free((#[trigger] d[j]).0)),
{
    let initial = ExtendedMarking::from_marking(initial_marking);
    proof {
        assert(graph@.nodes[0] == initial@);
        assert(graph@.has(initial@));
    }
    let found = dead_ends_from(graph, &initial);
    let ghost d = dead_view(found@);
    let mut r: Vec<Vec<TransitionId>> = Vec::new();
    let mut j: usize = 0;
    while j < found.len()
        invariant
            d == dead_view(found@),
            j <= found@.len(),
            r@.len() == j,
            forall|i: int| 0 <= i < j ==> (#[trigger] r@[i])@ == d[i].1,
        decreases found@.len() - j,
    {
        let mut p: Vec<TransitionId> = Vec::new();
        let src = &found[j].1;
        let mut k: usize = 0;
        while k < src.len()
            invariant
                k <= src@.len(),
                p@ == src@.take(k as int),
            decreases src@.len() - k,
        {
            p.push(src[k]);
            k += 1;
            proof {
                assert(p@ =~= src@.take(k as int));
            }
        }
        proof {
            assert(src@.take(src@.len() as int) =~= src@);
            assert(d[j as int] == (found@[j as int].0@, found@[j as int].1@));
        }
        r.push(p);
        j += 1;
    }
    proof {
        assert(is_coverability_graph(net@, initial_marking@, graph@));
        assert(dead_ends_of(graph@, extend(initial_marking@), d));
        net.lemma_wf();
        assert forall|j: int| 0 <= j < d.len() && omega_free((#[trigger] d[j]).0)
            implies stands_for_deadlock(net@, initial_marking@, d[j].0) by {
            lemma_finite_dead_node(net@, initial_marking@, graph@, d[j].0);
            let m = choose|m: Seq<usize>| net@.reachable(initial_marking@, m) && extend(m) == d[j].0
                && forall|t: int| !#[trigger] net@.can_fire(t, m);
            assert(is_dead(net@, m));
        };
        if no_inhibit(net@) && net@.fits_from(initial_marking@) {
            lemma_omega_means_unbounded(net@, initial_marking@, graph@);
            assert forall|j: int| 0 <= j < d.len() implies omega_free((#[trigger] d[j]).0) by {
                let i = graph@.index_of(d[j].0);
                assert(graph@.nodes[i] == d[j].0);
            };
        }
    }
    r
}

} // verus!
