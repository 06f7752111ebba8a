use vstd::prelude::*;

use crate::net::TransitionId;

verus! {

/// A state of a net exploration: comparable and copyable by its view.
pub trait State: View + Sized {
    /// Whether both states have the same view.
    fn state_eq(&self, other: &Self) -> (b: bool)
        ensures
            b == (self@ == other@),
    ;

    /// A copy with the same view.
    fn state_clone(&self) -> (r: Self)
        ensures
            r@ == self@,
    ;
}

/// Mathematical model of a [`Graph`]: its nodes in insertion order, and for each
/// node its outgoing edges `(transition, target)` in order.
pub struct GraphView<V> {
    pub nodes: Seq<V>,
    pub edges: Seq<Seq<(TransitionId, V)>>,
}

impl<V> GraphView<V> {
    /// One edge list per node and no node twice.
    pub open spec fn wf(self) -> bool {
        self.nodes.len() == self.edges.len() && self.nodes.no_duplicates()
    }

    /// The position of `v` among the nodes, if it is one.
    pub open spec fn index_of(self, v: V) -> int {
        choose|i: int| 0 <= i < self.nodes.len() && self.nodes[i] == v
    }

    /// Whether `v` is a node.
    pub open spec fn has(self, v: V) -> bool {
        self.nodes.contains(v)
    }

    /// The edges leaving `v` (none when `v` is not a node).
    pub open spec fn out(self, v: V) -> Seq<(TransitionId, V)> {
        if self.has(v) {
            self.edges[self.index_of(v)]
        } else {
            Seq::empty()
        }
    }

    /// There is an edge from `a` to `b`.
    pub open spec fn step(self, a: V, b: V) -> bool {
        exists|k: int| 0 <= k < self.out(a).len() && #[trigger] self.out(a)[k].1 == b
    }

    /// `p` is a walk: each element is followed by an edge target of its predecessor.
    pub open spec fn is_walk(self, p: Seq<V>) -> bool {
        forall|i: int| #![trigger p[i]] 0 <= i < p.len() - 1 ==> self.step(p[i], p[i + 1])
    }

    /// `p` is a walk from `a` to `b`.
    pub open spec fn walk_from(self, a: V, p: Seq<V>, b: V) -> bool {
        p.len() >= 1 && p[0] == a && p.last() == b && self.is_walk(p)
    }

    /// `b` can be reached from `a` by following zero or more edges.
    pub open spec fn reaches(self, a: V, b: V) -> bool {
        exists|p: Seq<V>| p.len() >= 1 && p[0] == a && p.last() == b && #[trigger] self.is_walk(p)
    }

    /// Firing the labels `ts` in order leads from `a` along edges to `b`.
    pub open spec fn labelled_walk(self, a: V, ts: Seq<TransitionId>, b: V) -> bool
        decreases ts.len(),
    {
        if ts.len() == 0 {
            a == b
        } else {
            exists|k: int|
                0 <= k < self.out(a).len() && #[trigger] self.out(a)[k].0 == ts[0]
                    && self.labelled_walk(self.out(a)[k].1, ts.drop_first(), b)
        }
    }
}

/// Views of a sequence of values.
pub open spec fn views<M: View>(s: Seq<M>) -> Seq<M::V> {
    s.map_values(|m: M| m@)
}

/// View of an edge list.
pub open spec fn edges_view<M: View>(es: Seq<(TransitionId, M)>) -> Seq<(TransitionId, M::V)> {
    es.map_values(|e: (TransitionId, M)| (e.0, e.1@))
}

/// A finite labelled transition graph: each node (a state) with the list of its
/// outgoing edges, each edge a transition and the state it leads to. No state is
/// a node twice.
pub struct Graph<M> {
    pub(crate) entries: Vec<(M, Vec<(TransitionId, M)>)>,
}

impl<M: View> View for Graph<M> {
    type V = GraphView<M::V>;

    closed spec fn view(&self) -> GraphView<M::V> {
        GraphView {
            nodes: self.entries@.map_values(|e: (M, Vec<(TransitionId, M)>)| e.0@),
            edges: self.entries@.map_values(|e: (M, Vec<(TransitionId, M)>)| edges_view(e.1@)),
        }
    }
}

/// A duplicate-free sequence drawn from a finite set is no longer than the set.
pub proof fn lemma_unique_within<A>(s: Seq<A>, universe: Set<A>)
    requires
        s.no_duplicates(),
        universe.finite(),
        forall|i: int| 0 <= i < s.len() ==> universe.contains(#[trigger] s[i]),
    ensures
        s.len() <= universe.len(),
{
    s.unique_seq_to_set();
    vstd::set_lib::lemma_len_subset(s.to_set(), universe);
}

/// Appending a node keeps the edges (and steps) of every earlier node.
pub proof fn lemma_push_keeps_out<V>(g: GraphView<V>, h: GraphView<V>, k: V, e: Seq<(TransitionId, V)>)
    requires
        g.wf(),
        h.wf(),
        h.nodes == g.nodes.push(k),
        h.edges == g.edges.push(e),
    ensures
        forall|a: V| g.has(a) ==> h.has(a) && h.out(a) == g.out(a),
        forall|a: V, b: V| g.step(a, b) ==> h.step(a, b),
        h.has(k),
        h.out(k) == e,
{
    assert forall|a: V| g.has(a) implies h.has(a) && h.out(a) == g.out(a) by {
        let i = g.index_of(a);
        let j = h.index_of(a);
        assert(h.nodes[i] == a);
        assert(h.nodes[j] == a);
        assert(i == j);
    };
    assert forall|a: V, b: V| g.step(a, b) implies h.step(a, b) by {
        assert(g.has(a));
        let kk = choose|kk: int| 0 <= kk < g.out(a).len() && #[trigger] g.out(a)[kk].1 == b;
        assert(h.out(a)[kk].1 == b);
    };
    assert(h.nodes[h.nodes.len() - 1] == k);
    let j = h.index_of(k);
    assert(j == h.nodes.len() - 1);
}

/// All edge targets, node by node.
pub open spec fn all_targets<V>(edges: Seq<Seq<(TransitionId, V)>>) -> Seq<V>
    decreases edges.len(),
{
    if edges.len() == 0 {
        Seq::empty()
    } else {
        all_targets(edges.drop_last()) + edges.last().map_values(|e: (TransitionId, V)| e.1)
    }
}

pub proof fn lemma_all_targets<V>(edges: Seq<Seq<(TransitionId, V)>>, i: int, k: int)
    requires
        0 <= i < edges.len(),
        0 <= k < edges[i].len(),
    ensures
        all_targets(edges).contains(edges[i][k].1),
    decreases edges.len(),
{
    let last = edges.last().map_values(|e: (TransitionId, V)| e.1);
    if i == edges.len() - 1 {
        assert((all_targets(edges.drop_last()) + last)[all_targets(edges.drop_last()).len() + k] == edges[i][k].1);
    } else {
        lemma_all_targets(edges.drop_last(), i, k);
        let j = choose|j: int| 0 <= j < all_targets(edges.drop_last()).len() && all_targets(edges.drop_last())[j] == edges[i][k].1;
        assert((all_targets(edges.drop_last()) + last)[j] == edges[i][k].1);
    }
}

impl<V> GraphView<V> {
    /// Every state a search from `a` can meet: `a` and every edge target.
    pub open spec fn universe(self, a: V) -> Set<V> {
        all_targets(self.edges).to_set().insert(a)
    }

    /// Steps go from a node to one of its edge targets.
    pub proof fn lemma_step_target(self, a: V, b: V)
        requires
            self.wf(),
            self.step(a, b),
        ensures
            self.has(a),
            self.universe(a).contains(b),
            forall|c: V| self.universe(c).contains(b),
    {
        let k = choose|k: int| 0 <= k < self.out(a).len() && #[trigger] self.out(a)[k].1 == b;
        assert(self.has(a));
        let i = self.index_of(a);
        lemma_all_targets(self.edges, i, k);
    }

    /// A walk can be extended by a step at its end.
    pub proof fn lemma_reaches_step(self, a: V, b: V, c: V)
        requires
            self.reaches(a, b),
            self.step(b, c),
        ensures
            self.reaches(a, c),
    {
        let p = choose|p: Seq<V>| p.len() >= 1 && p[0] == a && p.last() == b && #[trigger] self.is_walk(p);
        let q = p.push(c);
        assert forall|i: int| #![trigger q[i]] 0 <= i < q.len() - 1 implies self.step(q[i], q[i + 1]) by {
            if i < p.len() - 1 {
                assert(q[i] == p[i] && q[i + 1] == p[i + 1]);
            }
        };
        assert(self.is_walk(q));
    }

    /// A walk can be extended by a step at its start.
    pub proof fn lemma_reaches_prepend(self, a: V, b: V, c: V)
        requires
            self.step(a, b),
            self.reaches(b, c),
        ensures
            self.reaches(a, c),
    {
        let p = choose|p: Seq<V>| p.len() >= 1 && p[0] == b && p.last() == c && #[trigger] self.is_walk(p);
        let q = seq![a] + p;
        assert forall|i: int| #![trigger q[i]] 0 <= i < q.len() - 1 implies self.step(q[i], q[i + 1]) by {
            if i > 0 {
                assert(q[i] == p[i - 1] && q[i + 1] == p[i]);
            }
        };
        assert(self.is_walk(q));
    }

    /// Every state reaches itself.
    pub proof fn lemma_reaches_refl(self, a: V)
        ensures
            self.reaches(a, a),
    {
        let p = seq![a];
        assert(self.is_walk(p));
    }

    /// A set containing `a` and closed under steps contains everything `a` reaches.
    pub proof fn lemma_closed_reaches(self, s: Set<V>, a: V, b: V)
        requires
            s.contains(a),
            forall|x: V, y: V| s.contains(x) && #[trigger] self.step(x, y) ==> s.contains(y),
            self.reaches(a, b),
        ensures
            s.contains(b),
    {
        let p = choose|p: Seq<V>| p.len() >= 1 && p[0] == a && p.last() == b && #[trigger] self.is_walk(p);
        self.lemma_closed_walk(s, p, p.len() - 1);
    }

    proof fn lemma_closed_walk(self, s: Set<V>, p: Seq<V>, i: int)
        requires
            p.len() >= 1,
            s.contains(p[0]),
            forall|x: V, y: V| s.contains(x) && #[trigger] self.step(x, y) ==> s.contains(y),
            self.is_walk(p),
            0 <= i < p.len(),
        ensures
            s.contains(p[i]),
        decreases i,
    {
        if i > 0 {
            self.lemma_closed_walk(s, p, i - 1);
            assert(self.step(p[i - 1], p[i]));
        }
    }

    /// Appending a labelled step to a labelled walk.
    pub proof fn lemma_labelled_walk_push(self, a: V, ts: Seq<TransitionId>, b: V, k: int)
        requires
            self.labelled_walk(a, ts, b),
            0 <= k < self.out(b).len(),
        ensures
            self.labelled_walk(a, ts.push(self.out(b)[k].0), self.out(b)[k].1),
        decreases ts.len(),
    {
        let t = self.out(b)[k].0;
        let c = self.out(b)[k].1;
        if ts.len() == 0 {
            assert(ts.push(t)[0] == t);
            assert(ts.push(t).drop_first() =~= Seq::<TransitionId>::empty());
            assert(self.labelled_walk(c, Seq::<TransitionId>::empty(), c));
        } else {
            let j = choose|j: int|
                0 <= j < self.out(a).len() && #[trigger] self.out(a)[j].0 == ts[0]
                    && self.labelled_walk(self.out(a)[j].1, ts.drop_first(), b);
            self.lemma_labelled_walk_push(self.out(a)[j].1, ts.drop_first(), b, k);
            assert(ts.push(t).drop_first() =~= ts.drop_first().push(t));
            assert(ts.push(t)[0] == ts[0]);
        }
    }

    /// A labelled walk with at least one step ends with a step labelled by its
    /// last label, from where the walk without that label ends.
    pub proof fn lemma_labelled_walk_last(self, a: V, ts: Seq<TransitionId>, b: V) -> (r: (V, int))
        requires
            self.labelled_walk(a, ts, b),
            ts.len() > 0,
        ensures
            self.labelled_walk(a, ts.drop_last(), r.0),
            0 <= r.1 < self.out(r.0).len(),
            self.out(r.0)[r.1] == (ts.last(), b),
        decreases ts.len(),
    {
        let j = choose|j: int|
            0 <= j < self.out(a).len() && #[trigger] self.out(a)[j].0 == ts[0]
                && self.labelled_walk(self.out(a)[j].1, ts.drop_first(), b);
        let c = self.out(a)[j].1;
        if ts.len() == 1 {
            assert(ts.drop_first() =~= Seq::<TransitionId>::empty());
            assert(ts.drop_last() =~= Seq::<TransitionId>::empty());
            assert(ts.last() == ts[0]);
            assert(self.out(a)[j] == (ts[0], c));
            (a, j)
        } else {
            let r = self.lemma_labelled_walk_last(c, ts.drop_first(), b);
            assert(ts.drop_first().drop_last() =~= ts.drop_last().drop_first());
            assert(ts.drop_last()[0] == ts[0]);
            assert(ts.drop_first().last() == ts.last());
            assert(self.labelled_walk(a, ts.drop_last(), r.0));
            r
        }
    }

    /// A labelled walk is a walk.
    pub proof fn lemma_labelled_walk_reaches(self, a: V, ts: Seq<TransitionId>, b: V)
        requires
            self.labelled_walk(a, ts, b),
        ensures
            self.reaches(a, b),
        decreases ts.len(),
    {
        if ts.len() == 0 {
            self.lemma_reaches_refl(a);
        } else {
            let j = choose|j: int|
                0 <= j < self.out(a).len() && #[trigger] self.out(a)[j].0 == ts[0]
                    && self.labelled_walk(self.out(a)[j].1, ts.drop_first(), b);
            let c = self.out(a)[j].1;
            self.lemma_labelled_walk_reaches(c, ts.drop_first(), b);
            let p = choose|p: Seq<V>| p.len() >= 1 && p[0] == c && p.last() == b && #[trigger] self.is_walk(p);
            let q = seq![a] + p;
            assert(self.step(a, c));
            assert forall|i: int| #![trigger q[i]] 0 <= i < q.len() - 1 implies self.step(q[i], q[i + 1]) by {
                if i > 0 {
                    assert(q[i] == p[i - 1] && q[i + 1] == p[i]);
                }
            };
            assert(self.is_walk(q));
        }
    }
}

/// Whether `v` holds a state equal to `x`.
pub fn contains_state<M: State>(v: &Vec<M>, x: &M) -> (b: bool)
    ensures
        b == views(v@).contains(x@),
{
    let mut i: usize = 0;
    while i < v.len()
        invariant
            i <= v@.len(),
            forall|j: int| 0 <= j < i ==> v@[j]@ != x@,
        decreases v@.len() - i,
    {
        if v[i].state_eq(x) {
            proof {
                assert(views(v@)[i as int] == x@);
            }
            return true;
        }
        i += 1;
    }
    proof {
        if views(v@).contains(x@) {
            let j = choose|j: int| 0 <= j < views(v@).len() && views(v@)[j] == x@;
            assert(v@[j]@ == x@);
        }
    }
    false
}

impl<M: State> Graph<M> {
    pub open spec fn wf(&self) -> bool {
        self@.wf()
    }

    /// The graph with no nodes.
    pub fn new() -> (g: Self)
        ensures
            g@.nodes == Seq::<M::V>::empty(),
            g@.edges == Seq::<Seq<(TransitionId, M::V)>>::empty(),
            g.wf(),
    {
        let g = Graph { entries: Vec::new() };
        proof {
            assert(g@.nodes =~= Seq::<M::V>::empty());
            assert(g@.edges =~= Seq::<Seq<(TransitionId, M::V)>>::empty());
        }
        g
    }

    /// Number of nodes.
    pub fn len(&self) -> (n: usize)
        ensures
            n == self@.nodes.len(),
    {
        self.entries.len()
    }

    /// Whether there is no node.
    pub fn is_empty(&self) -> (b: bool)
        ensures
            b == (self@.nodes.len() == 0),
    {
        self.entries.len() == 0
    }

    /// The `i`-th node.
    pub fn key(&self, i: usize) -> (k: &M)
        requires
            i < self@.nodes.len(),
        ensures
            k@ == self@.nodes[i as int],
    {
        &self.entries[i].0
    }

    /// The edges of the `i`-th node.
    pub fn edges(&self, i: usize) -> (es: &Vec<(TransitionId, M)>)
        requires
            i < self@.nodes.len(),
        ensures
            edges_view(es@) == self@.edges[i as int],
    {
        &self.entries[i].1
    }

    /// Position of the node equal to `key`, if any.
    pub fn find(&self, key: &M) -> (r: Option<usize>)
        requires
            self.wf(),
        ensures
            match r {
                Some(i) => i < self@.nodes.len() && self@.nodes[i as int] == key@ && i == self@.index_of(key@),
                None => !self@.has(key@),
            },
    {
        let n = self.entries.len();
        let mut i: usize = 0;
        while i < n
            invariant
                n == self@.nodes.len(),
                self.wf(),
                i <= n,
                forall|j: int| 0 <= j < i ==> self@.nodes[j] != key@,
            decreases n - i,
        {
            if self.entries[i].0.state_eq(key) {
                proof {
                    let c = self@.index_of(key@);
                    assert(self@.nodes[i as int] == key@);
                    assert(self@.nodes[c] == key@);
                }
                return Some(i);
            }
            i += 1;
        }
        None
    }

    /// Whether `key` is a node.
    pub fn contains_key(&self, key: &M) -> (b: bool)
        requires
            self.wf(),
        ensures
            b == self@.has(key@),
    {
        self.find(key).is_some()
    }

    /// The edges leaving `key`, if it is a node.
    pub fn get(&self, key: &M) -> (r: Option<&Vec<(TransitionId, M)>>)
        requires
            self.wf(),
        ensures
            match r {
                Some(es) => self@.has(key@) && edges_view(es@) == self@.out(key@),
                None => !self@.has(key@),
            },
    {
        match self.find(key) {
            Some(i) => Some(&self.entries[i].1),
            None => None,
        }
    }

    /// Copies of all nodes, in order.
    pub fn keys(&self) -> (ks: Vec<M>)
        ensures
            ks@.len() == self@.nodes.len(),
            forall|i: int| 0 <= i < ks@.len() ==> ks@[i]@ == self@.nodes[i],
    {
        let mut ks: Vec<M> = Vec::new();
        let n = self.entries.len();
        let mut i: usize = 0;
        while i < n
            invariant
                n == self@.nodes.len(),
                i <= n,
                ks@.len() == i,
                forall|j: int| 0 <= j < i ==> ks@[j]@ == self@.nodes[j],
            decreases n - i,
        {
            ks.push(self.entries[i].0.state_clone());
            i += 1;
        }
        ks
    }

    /// Adds `key`, which is not a node yet, with the edges `es`.
    pub fn insert_new(&mut self, key: M, es: Vec<(TransitionId, M)>)
        requires
            old(self).wf(),
            !old(self)@.has(key@),
        ensures
            final(self).wf(),
            final(self)@.nodes == old(self)@.nodes.push(key@),
            final(self)@.edges == old(self)@.edges.push(edges_view(es@)),
    {
        let ghost k = key@;
        let ghost ev = edges_view(es@);
        self.entries.push((key, es));
        proof {
            assert(self@.nodes =~= old(self)@.nodes.push(k));
            assert(self@.edges =~= old(self)@.edges.push(ev));
            assert(self@.nodes.no_duplicates()) by {
                assert forall|a: int, b: int| 0 <= a < b < self@.nodes.len()
                    implies self@.nodes[a] != self@.nodes[b] by {
                    if b == self@.nodes.len() - 1 {
                        assert(old(self)@.nodes.contains(self@.nodes[a]));
                    }
                };
            };
        }
    }
}

impl<M: State> Graph<M> {
    /// Every state reachable from `from` by following edges (`from` itself
    /// included), each once, in depth-first order.
    #[verifier::rlimit(60)]
    #[verifier::spinoff_prover]
    pub fn reachable_states(&self, from: &M) -> (r: Vec<M>)
        requires
            self.wf(),
        ensures
            views(r@).no_duplicates(),
            forall|x: M::V| views(r@).contains(x) <==> self@.reaches(from@, x),
    {
        let ghost g = self@;
        let ghost u = g.universe(from@);
        let mut visited: Vec<M> = Vec::new();
        let mut stack: Vec<M> = Vec::new();
        stack.push(from.state_clone());
        proof {
            assert(views(stack@)[0] == from@);
            g.lemma_reaches_refl(from@);
            assert(views(visited@) =~= Seq::<M::V>::empty());
        }
        while stack.len() > 0
            invariant
                self.wf(),
                g == self@,
                u == g.universe(from@),
                views(visited@).no_duplicates(),
                forall|j: int| 0 <= j < visited@.len() ==> #[trigger] g.reaches(from@, visited@[j]@) && u.contains(visited@[j]@),
                forall|j: int| 0 <= j < stack@.len() ==> #[trigger] g.reaches(from@, stack@[j]@) && u.contains(stack@[j]@),
                views(visited@).contains(from@) || views(stack@).contains(from@),
                forall|x: M::V, y: M::V| views(visited@).contains(x) && #[trigger] g.step(x, y)
                    ==> views(visited@).contains(y) || views(stack@).contains(y),
            decreases u.len() - visited@.len(), stack@.len(),
        {
            let ghost old_stack = stack@;
            let ghost old_visited = visited@;
            let cur = stack.pop().unwrap();
            proof {
                assert(old_stack == stack@.push(cur));
                assert(views(old_stack) =~= views(stack@).push(cur@));
                assert(old_stack[old_stack.len() - 1] == cur);
                let top = old_stack.len() - 1;
                assert(0 <= top < old_stack.len());
                assert(g.reaches(from@, old_stack[top]@));
                assert(u.contains(old_stack[top]@));
            }
            if contains_state(&visited, &cur) {
                proof {
                    assert forall|x: M::V, y: M::V| views(visited@).contains(x) && #[trigger] g.step(x, y)
                        implies views(visited@).contains(y) || views(stack@).contains(y) by {
                        if !views(visited@).contains(y) {
                            assert(views(old_stack).contains(y));
                            let j = choose|j: int| 0 <= j < views(old_stack).len() && views(old_stack)[j] == y;
                            if j < stack@.len() {
                                assert(views(stack@)[j] == y);
                            }
                        }
                    };
                    if !views(visited@).contains(from@) {
                        let j = choose|j: int| 0 <= j < views(old_stack).len() && views(old_stack)[j] == from@;
                        if j < stack@.len() {
                            assert(views(stack@)[j] == from@);
                        }
                    }
                    assert forall|j: int| 0 <= j < stack@.len() implies #[trigger] g.reaches(from@, stack@[j]@) && u.contains(stack@[j]@) by {
                        assert(stack@[j] == old_stack[j]);
                    };
                }
                continue;
            }
            let ghost base = stack@;
            match self.get(&cur) {
                Some(es) => {
                    let mut k: usize = 0;
                    while k < es.len()
                        invariant
                            g.has(cur@),
                            edges_view(es@) == g.out(cur@),
                            g.wf(),
                            g.reaches(from@, cur@),
                            u == g.universe(from@),
                            k <= es@.len(),
                            stack@.len() == base.len() + k,
                            forall|j: int| 0 <= j < base.len() ==> stack@[j] == #[trigger] base[j],
                            forall|j: int| 0 <= j < k ==> stack@[base.len() + j]@ == (#[trigger] es@[j]).1@,
                            forall|j: int| 0 <= j < stack@.len() ==> #[trigger] g.reaches(from@, stack@[j]@) && u.contains(stack@[j]@),
                        decreases es@.len() - k,
                    {
                        proof {
                            assert(g.out(cur@)[k as int].1 == es@[k as int].1@);
                            assert(g.step(cur@, es@[k as int].1@));
                            g.lemma_reaches_step(from@, cur@, es@[k as int].1@);
                            g.lemma_step_target(cur@, es@[k as int].1@);
                        }
                        stack.push(es[k].1.state_clone());
                        k += 1;
                    }
                    proof {
                        assert forall|y: M::V| #[trigger] g.step(cur@, y) implies views(stack@).contains(y) by {
                            let kk = choose|kk: int| 0 <= kk < g.out(cur@).len() && #[trigger] g.out(cur@)[kk].1 == y;
                            assert(views(stack@)[base.len() + kk] == y);
                        };
                    }
                },
                None => {
                    proof {
                        assert forall|y: M::V| !(#[trigger] g.step(cur@, y)) by {};
                    }
                },
            }
            let ghost pre_push = visited@;
            visited.push(cur);
            proof {
                assert(views(visited@) =~= views(pre_push).push(cur@));
                assert forall|x: M::V| views(pre_push).contains(x) implies views(visited@).contains(x) by {
                    let j = choose|j: int| 0 <= j < views(pre_push).len() && views(pre_push)[j] == x;
                    assert(views(visited@)[j] == x);
                };
                assert(views(visited@)[visited@.len() - 1] == cur@);
                assert(views(visited@).no_duplicates());
                assert forall|x: M::V| views(base).contains(x) implies views(stack@).contains(x) by {
                    let j = choose|j: int| 0 <= j < views(base).len() && views(base)[j] == x;
                    assert(views(stack@)[j] == x);
                };
                assert forall|x: M::V, y: M::V| views(visited@).contains(x) && #[trigger] g.step(x, y)
                    implies views(visited@).contains(y) || views(stack@).contains(y) by {
                    if x != cur@ {
                        assert(views(pre_push).contains(x)) by {
                            let j = choose|j: int| 0 <= j < views(visited@).len() && views(visited@)[j] == x;
                            assert(j < pre_push.len());
                            assert(views(pre_push)[j] == x);
                        };
                        if !views(pre_push).contains(y) && !views(base).contains(y) {
                            assert(views(old_stack).contains(y));
                            assert(y == cur@) by {
                                let j = choose|j: int| 0 <= j < views(old_stack).len() && views(old_stack)[j] == y;
                                if j < base.len() {
                                    assert(views(base)[j] == y);
                                }
                            };
                        }
                    }
                };
                if views(pre_push).contains(from@) {
                    assert(views(visited@).contains(from@));
                } else if from@ == cur@ {
                    assert(views(visited@).contains(from@));
                } else {
                    let j = choose|j: int| 0 <= j < views(old_stack).len() && views(old_stack)[j] == from@;
                    assert(j < base.len());
                    assert(views(base)[j] == from@);
                    assert(views(base).contains(from@));
                    assert(views(stack@).contains(from@));
                }
                assert forall|j: int| 0 <= j < visited@.len() implies #[trigger] g.reaches(from@, visited@[j]@) && u.contains(visited@[j]@) by {
                    if j < pre_push.len() {
                        assert(visited@[j] == pre_push[j]);
                    }
                };
                assert forall|i: int| 0 <= i < views(visited@).len() implies u.contains(#[trigger] views(visited@)[i]) by {
                    assert(views(visited@)[i] == visited@[i]@);
                    assert(g.reaches(from@, visited@[i]@));
                };
                lemma_unique_within(views(visited@), u);
            }
        }
        proof {
            let s = views(visited@).to_set();
            assert forall|x: M::V, y: M::V| s.contains(x) && #[trigger] g.step(x, y) implies s.contains(y) by {};
            assert forall|x: M::V| views(visited@).contains(x) <==> g.reaches(from@, x) by {
                if g.reaches(from@, x) {
                    g.lemma_closed_reaches(s, from@, x);
                }
                if views(visited@).contains(x) {
                    let j = choose|j: int| 0 <= j < views(visited@).len() && views(visited@)[j] == x;
                    assert(g.reaches(from@, visited@[j]@));
                }
            };
        }
        visited
    }
}

} // verus!
