//! The Karp-Miller tree is finite: every net, from every root.
//!
//! The tree branches at most once per transition, so an infinite tree has an
//! infinite branch (König). Along that branch the places holding `Omega`
//! settle from some node on; among the later nodes two are ordered (Dickson),
//! and the later of the two was either a leaf or would have been widened past
//! the earlier one.
use vstd::prelude::*;

use crate::coverability::{
    ext_enabled, ext_fire, km_node, km_tree, lemma_widen_keeps_omega, lemma_widen_len, promote, token_le, token_lt,
    widen, widen_step, dominates, ExtendedToken,
};
use crate::net::{NetView, TransitionId};

verus! {

/// The paths of the Karp-Miller tree that start with `p`.
pub open spec fn subtree(net: NetView, root: Seq<ExtendedToken>, p: Seq<TransitionId>) -> Set<Seq<TransitionId>> {
    Set::new(|q: Seq<TransitionId>| km_node(net, root, q) is Some && p.len() <= q.len() && q.take(p.len() as int) == p)
}

/// A prefix of a tree path is a tree path.
proof fn lemma_prefix_in_tree(net: NetView, root: Seq<ExtendedToken>, q: Seq<TransitionId>, i: int)
    requires
        km_node(net, root, q) is Some,
        0 <= i <= q.len(),
    ensures
        km_node(net, root, q.take(i)) is Some,
    decreases q.len() - i,
{
    if i < q.len() {
        lemma_prefix_in_tree(net, root, q.drop_last(), i);
        assert(q.drop_last().take(i) =~= q.take(i));
    } else {
        assert(q.take(i) =~= q);
    }
}

/// The children of `p` below transition `k`, with everything under them.
spec fn children_below(net: NetView, root: Seq<ExtendedToken>, p: Seq<TransitionId>, k: nat) -> Set<Seq<TransitionId>>
    decreases k,
{
    if k == 0 {
        Set::empty()
    } else {
        children_below(net, root, p, (k - 1) as nat).union(subtree(net, root, p.push(TransitionId((k - 1) as usize))))
    }
}

/// A finite union of finite subtrees is finite.
proof fn lemma_children_below_finite(net: NetView, root: Seq<ExtendedToken>, p: Seq<TransitionId>, k: nat)
    requires
        k <= usize::MAX + 1,
        forall|t: usize| t < k ==> #[trigger] subtree(net, root, p.push(TransitionId(t))).finite(),
    ensures
        children_below(net, root, p, k).finite(),
    decreases k,
{
    if k > 0 {
        lemma_children_below_finite(net, root, p, (k - 1) as nat);
        let c = subtree(net, root, p.push(TransitionId((k - 1) as usize)));
        assert(c.finite());
        vstd::set::axiom_set_union_finite(children_below(net, root, p, (k - 1) as nat), c);
    }
}

/// Every path under `p` is `p` or lies under one of its children.
proof fn lemma_subtree_split(net: NetView, root: Seq<ExtendedToken>, p: Seq<TransitionId>)
    requires
        net.transitions.len() <= usize::MAX,
    ensures
        subtree(net, root, p).subset_of(children_below(net, root, p, net.transitions.len()).insert(p)),
{
    assert forall|q: Seq<TransitionId>| #[trigger] subtree(net, root, p).contains(q)
        implies children_below(net, root, p, net.transitions.len()).insert(p).contains(q) by {
        if q.len() > p.len() {
            let n = p.len() as int;
            let t = q[n];
            lemma_prefix_in_tree(net, root, q, n + 1);
            let q1 = q.take(n + 1);
            assert(q1.drop_last() =~= q.take(n));
            assert(q1.last() == t);
            assert(0 <= t.0 < net.transitions.len());
            let c = p.push(t);
            assert(q.take(n + 1) =~= c);
            assert(subtree(net, root, c).contains(q));
            lemma_in_children_below(net, root, p, t.0 as nat, net.transitions.len(), q);
        } else {
            assert(q =~= q.take(p.len() as int));
        }
    };
}

proof fn lemma_in_children_below(net: NetView, root: Seq<ExtendedToken>, p: Seq<TransitionId>, t: nat, k: nat, q: Seq<TransitionId>)
    requires
        t < k,
        t <= usize::MAX,
        subtree(net, root, p.push(TransitionId(t as usize))).contains(q),
    ensures
        children_below(net, root, p, k).contains(q),
    decreases k,
{
    if t < k - 1 {
        lemma_in_children_below(net, root, p, t, (k - 1) as nat, q);
    }
}

/// An infinite subtree has an infinite child subtree.
proof fn lemma_infinite_child(net: NetView, root: Seq<ExtendedToken>, p: Seq<TransitionId>)
    requires
        net.transitions.len() <= usize::MAX,
        !subtree(net, root, p).finite(),
    ensures
        exists|t: usize| t < net.transitions.len() && !#[trigger] subtree(net, root, p.push(TransitionId(t))).finite(),
{
    if forall|t: usize| t < net.transitions.len() ==> #[trigger] subtree(net, root, p.push(TransitionId(t))).finite() {
        lemma_children_below_finite(net, root, p, net.transitions.len());
        lemma_subtree_split(net, root, p);
        vstd::set::axiom_set_insert_finite(children_below(net, root, p, net.transitions.len()), p);
        vstd::set_lib::lemma_set_subset_finite(children_below(net, root, p, net.transitions.len()).insert(p), subtree(net, root, p));
    }
}

/// The infinite branch of an infinite tree, to depth `n`.
spec fn branch(net: NetView, root: Seq<ExtendedToken>, n: nat) -> Seq<TransitionId>
    decreases n,
{
    if n == 0 {
        Seq::empty()
    } else {
        let p = branch(net, root, (n - 1) as nat);
        p.push(TransitionId(choose|t: usize| t < net.transitions.len() && !#[trigger] subtree(net, root, p.push(TransitionId(t))).finite()))
    }
}

/// Each step of the branch keeps an infinite subtree under it.
proof fn lemma_branch(net: NetView, root: Seq<ExtendedToken>, n: nat)
    requires
        net.transitions.len() <= usize::MAX,
        !km_tree(net, root).finite(),
    ensures
        !subtree(net, root, branch(net, root, n)).finite(),
        branch(net, root, n).len() == n,
        km_node(net, root, branch(net, root, n)) is Some,
    decreases n,
{
    if n == 0 {
        assert(subtree(net, root, Seq::empty()) =~= km_tree(net, root)) by {
            assert forall|q: Seq<TransitionId>| #[trigger] km_tree(net, root).contains(q) implies subtree(net, root, Seq::empty()).contains(q) by {
                assert(q.take(0) =~= Seq::<TransitionId>::empty());
            };
        };
    } else {
        lemma_branch(net, root, (n - 1) as nat);
        let p = branch(net, root, (n - 1) as nat);
        lemma_infinite_child(net, root, p);
    }
    let s = subtree(net, root, branch(net, root, n));
    if forall|x: Seq<TransitionId>| !s.contains(x) {
        assert(s =~= Set::<Seq<TransitionId>>::empty());
    }
    let q = choose|x: Seq<TransitionId>| s.contains(x);
    lemma_prefix_in_tree(net, root, q, n as int);
}

/// Every node of the Karp-Miller tree, and each of its ancestors, has as many
/// places as the root.
proof fn lemma_node_lens(net: NetView, root: Seq<ExtendedToken>, p: Seq<TransitionId>)
    requires
        km_node(net, root, p) is Some,
    ensures
        km_node(net, root, p).unwrap().0.len() == root.len(),
        forall|i: int| 0 <= i < km_node(net, root, p).unwrap().1.len() ==> (#[trigger] km_node(net, root, p).unwrap().1[i]).len() == root.len(),
    decreases p.len(),
{
    if p.len() > 0 {
        lemma_node_lens(net, root, p.drop_last());
        let node = km_node(net, root, p.drop_last()).unwrap();
        let anc2 = node.1.push(node.0);
        let t = p.last().0 as int;
        let f = ext_fire(net.transitions[t], node.0);
        assert forall|i: int| 0 <= i < anc2.len() implies (#[trigger] anc2[i]).len() == f.len() by {};
        lemma_widen_len(f, anc2);
    }
}

/// The node at depth `n` of the infinite branch.
spec fn bnode(net: NetView, root: Seq<ExtendedToken>, n: nat) -> Seq<ExtendedToken> {
    km_node(net, root, branch(net, root, n)).unwrap().0
}

/// The ancestors of the node at depth `n` of the infinite branch.
spec fn banc(net: NetView, root: Seq<ExtendedToken>, n: nat) -> Seq<Seq<ExtendedToken>> {
    km_node(net, root, branch(net, root, n)).unwrap().1
}

/// How each node of the infinite branch follows from the one before, and
/// that no node of it equals one of its ancestors.
proof fn lemma_branch_step(net: NetView, root: Seq<ExtendedToken>, n: nat)
    requires
        net.transitions.len() <= usize::MAX,
        !km_tree(net, root).finite(),
    ensures
        banc(net, root, n + 1) == banc(net, root, n).push(bnode(net, root, n)),
        !banc(net, root, n).contains(bnode(net, root, n)),
        ({
            let t = branch(net, root, n + 1).last().0 as int;
            &&& 0 <= t < net.transitions.len()
            &&& bnode(net, root, n + 1) == widen(
                ext_fire(net.transitions[t], bnode(net, root, n)),
                banc(net, root, n).push(bnode(net, root, n)),
            )
        }),
        bnode(net, root, n).len() == root.len(),
        forall|i: int| 0 <= i < banc(net, root, n).len() ==> (#[trigger] banc(net, root, n)[i]).len() == root.len(),
{
    lemma_branch(net, root, n + 1);
    lemma_branch(net, root, n);
    let p = branch(net, root, n + 1);
    assert(p.drop_last() =~= branch(net, root, n));
    lemma_node_lens(net, root, branch(net, root, n));
}

/// The ancestors of the node at depth `n` are the nodes above it, in order.
proof fn lemma_branch_ancestors(net: NetView, root: Seq<ExtendedToken>, n: nat)
    requires
        net.transitions.len() <= usize::MAX,
        !km_tree(net, root).finite(),
    ensures
        banc(net, root, n).len() == n,
        forall|i: int| 0 <= i < n ==> #[trigger] banc(net, root, n)[i] == bnode(net, root, i as nat),
    decreases n,
{
    if n == 0 {
        lemma_branch(net, root, 0);
        assert(branch(net, root, 0) =~= Seq::<TransitionId>::empty());
    } else {
        lemma_branch_ancestors(net, root, (n - 1) as nat);
        lemma_branch_step(net, root, (n - 1) as nat);
    }
}

/// `Omega` stays along the branch.
proof fn lemma_branch_keeps_omega(net: NetView, root: Seq<ExtendedToken>, n: nat, m: nat, c: int)
    requires
        net.transitions.len() <= usize::MAX,
        !km_tree(net, root).finite(),
        n <= m,
        0 <= c < root.len(),
        bnode(net, root, n)[c] == ExtendedToken::Omega,
    ensures
        bnode(net, root, m)[c] == ExtendedToken::Omega,
    decreases m - n,
{
    if n < m {
        lemma_branch_step(net, root, n);
        let t = branch(net, root, n + 1).last().0 as int;
        let x = bnode(net, root, n);
        let f = ext_fire(net.transitions[t], x);
        let anc2 = banc(net, root, n).push(x);
        assert forall|i: int| 0 <= i < anc2.len() implies (#[trigger] anc2[i]).len() == f.len() by {};
        assert(f[c] == ExtendedToken::Omega);
        lemma_widen_keeps_omega(f, anc2, c);
        lemma_branch_keeps_omega(net, root, n + 1, m, c);
    }
}

/// Which of the first `j` places hold `Omega` settles along the branch.
proof fn lemma_omega_settles(net: NetView, root: Seq<ExtendedToken>, j: nat) -> (big_n: nat)
    requires
        net.transitions.len() <= usize::MAX,
        !km_tree(net, root).finite(),
        j <= root.len(),
    ensures
        forall|c: int, n: nat| 0 <= c < j && big_n <= n ==>
            (#[trigger] bnode(net, root, n)[c] == ExtendedToken::Omega) == (bnode(net, root, big_n)[c] == ExtendedToken::Omega),
    decreases j,
{
    if j == 0 {
        0
    } else {
        let n0 = lemma_omega_settles(net, root, (j - 1) as nat);
        let c = j - 1;
        if exists|n: nat| n0 <= n && #[trigger] bnode(net, root, n)[c] == ExtendedToken::Omega {
            let n1 = choose|n: nat| n0 <= n && #[trigger] bnode(net, root, n)[c] == ExtendedToken::Omega;
            assert forall|cc: int, n: nat| 0 <= cc < j && n1 <= n implies
                (#[trigger] bnode(net, root, n)[cc] == ExtendedToken::Omega) == (bnode(net, root, n1)[cc] == ExtendedToken::Omega) by {
                if cc == c {
                    lemma_branch_keeps_omega(net, root, n1, n, c);
                }
            };
            n1
        } else {
            n0
        }
    }
}

/// Among the finite tokens of `u` after `base`, one is least.
proof fn lemma_least_finite(u: spec_fn(nat) -> ExtendedToken, base: int, v: nat)
    requires
        exists|m: nat| m > base && (#[trigger] u(m)) is Finite && u(m)->Finite_0 <= v,
    ensures
        exists|m: nat| m > base && (#[trigger] u(m)) is Finite
            && forall|m2: nat| m2 > base && (#[trigger] u(m2)) is Finite ==> u(m)->Finite_0 <= u(m2)->Finite_0,
    decreases v,
{
    if v > 0 && exists|m: nat| m > base && (#[trigger] u(m)) is Finite && u(m)->Finite_0 <= (v - 1) as nat {
        lemma_least_finite(u, base, (v - 1) as nat);
    } else {
        let m = choose|m: nat| m > base && (#[trigger] u(m)) is Finite && u(m)->Finite_0 <= v;
        assert forall|m2: nat| m2 > base && (#[trigger] u(m2)) is Finite implies u(m)->Finite_0 <= u(m2)->Finite_0 by {
            if v > 0 && u(m2)->Finite_0 < u(m)->Finite_0 {
                assert(u(m2)->Finite_0 <= (v - 1) as nat);
            }
        };
    }
}

/// Some token of `u` after `base` is at most every later one.
proof fn lemma_least_after(u: spec_fn(nat) -> ExtendedToken, base: int)
    requires
        base >= -1,
    ensures
        exists|m: nat| #[trigger] least_at(u, base, m),
{
    if exists|m: nat| m > base && (#[trigger] u(m)) is Finite {
        let m0 = choose|m: nat| m > base && (#[trigger] u(m)) is Finite;
        lemma_least_finite(u, base, u(m0)->Finite_0 as nat);
        let m = choose|m: nat| m > base && (#[trigger] u(m)) is Finite
            && forall|m2: nat| m2 > base && (#[trigger] u(m2)) is Finite ==> u(m)->Finite_0 <= u(m2)->Finite_0;
        assert forall|m2: nat| m2 > base implies token_le(u(m), #[trigger] u(m2)) by {
            if u(m2) is Finite {
                assert(u(m)->Finite_0 <= u(m2)->Finite_0);
            }
        };
        assert(least_at(u, base, m));
    } else {
        let m = (base + 1) as nat;
        assert forall|m2: nat| m2 > base implies token_le(u(m), #[trigger] u(m2)) by {
            assert(!(u(m2) is Finite));
            assert(!(u(m) is Finite));
        };
        assert(least_at(u, base, m));
    }
}

/// Position `m` comes after `base` and its token is at most every later one.
spec fn least_at(u: spec_fn(nat) -> ExtendedToken, base: int, m: nat) -> bool {
    m > base && forall|m2: nat| m2 > base ==> token_le(u(m), #[trigger] u(m2))
}

/// A position after `base` whose token is at most every later one.
spec fn least_after(u: spec_fn(nat) -> ExtendedToken, base: int) -> nat {
    choose|m: nat| #[trigger] least_at(u, base, m)
}

/// Positions of `u` whose tokens never decrease.
spec fn ascend(u: spec_fn(nat) -> ExtendedToken, n: nat) -> nat
    decreases n,
{
    if n == 0 {
        least_after(u, -1)
    } else {
        least_after(u, ascend(u, (n - 1) as nat) as int)
    }
}

proof fn lemma_ascend_step(u: spec_fn(nat) -> ExtendedToken, n: nat)
    ensures
        n == 0 ==> ascend(u, n) > -1 && forall|m2: nat| m2 > -1 ==> token_le(u(ascend(u, n)), #[trigger] u(m2)),
        n > 0 ==> ascend(u, n) > ascend(u, (n - 1) as nat) && forall|m2: nat| m2 > ascend(u, (n - 1) as nat)
            ==> token_le(u(ascend(u, n)), #[trigger] u(m2)),
{
    if n == 0 {
        lemma_least_after(u, -1);
    } else {
        lemma_least_after(u, ascend(u, (n - 1) as nat) as int);
    }
}

/// The positions chosen by [`ascend`] increase, and so do their tokens.
proof fn lemma_ascend(u: spec_fn(nat) -> ExtendedToken, a: nat, b: nat)
    requires
        a < b,
    ensures
        ascend(u, a) < ascend(u, b),
        token_le(u(ascend(u, a)), u(ascend(u, b))),
    decreases b - a,
{
    lemma_ascend_step(u, b);
    if a + 1 < b {
        lemma_ascend(u, a, (b - 1) as nat);
    }
    lemma_ascend_step(u, a);
    if a > 0 {
        lemma_ascend_step(u, (a - 1) as nat);
    }
    assert(ascend(u, b) > ascend(u, a));
}

/// Positions of `f` at which each of the first `j` places never decreases.
spec fn select(f: spec_fn(nat) -> Seq<ExtendedToken>, j: nat) -> spec_fn(nat) -> nat
    decreases j,
{
    if j == 0 {
        |n: nat| n
    } else {
        let h = select(f, (j - 1) as nat);
        let u = |n: nat| f(h(n))[j - 1];
        |n: nat| h(ascend(u, n))
    }
}

/// Dickson's lemma: along the positions chosen by [`select`], the first `j`
/// places never decrease.
proof fn lemma_dickson(f: spec_fn(nat) -> Seq<ExtendedToken>, j: nat, a: nat, b: nat)
    requires
        a < b,
    ensures
        select(f, j)(a) < select(f, j)(b),
        forall|c: int| 0 <= c < j ==> token_le(#[trigger] f(select(f, j)(a))[c], f(select(f, j)(b))[c]),
    decreases j,
{
    if j > 0 {
        let h = select(f, (j - 1) as nat);
        let u = |n: nat| f(h(n))[j - 1];
        lemma_ascend(u, a, b);
        let ga = ascend(u, a);
        let gb = ascend(u, b);
        lemma_dickson(f, (j - 1) as nat, ga, gb);
        assert(select(f, j)(a) == h(ga));
        assert(select(f, j)(b) == h(gb));
        assert forall|c: int| 0 <= c < j implies token_le(#[trigger] f(select(f, j)(a))[c], f(select(f, j)(b))[c]) by {
            if c == j - 1 {
                assert(u(ga) == f(h(ga))[j - 1]);
                assert(u(gb) == f(h(gb))[j - 1]);
            }
        };
    }
}

/// A count that the whole widening leaves finite was left as it is by every
/// first part of it.
proof fn lemma_widen_prefix_finite(z: Seq<ExtendedToken>, anc: Seq<Seq<ExtendedToken>>, i: int, c: int)
    requires
        forall|q: int| 0 <= q < anc.len() ==> (#[trigger] anc[q]).len() == z.len(),
        0 <= i <= anc.len(),
        0 <= c < z.len(),
        widen(z, anc)[c] is Finite,
    ensures
        widen(z, anc.take(i))[c] == widen(z, anc)[c],
    decreases anc.len() - i,
{
    if i == anc.len() {
        assert(anc.take(i) =~= anc);
    } else {
        let d = anc.drop_last();
        lemma_widen_len(z, d);
        let y = widen(z, d);
        assert(widen(z, anc) == widen_step(y, anc.last()));
        assert(y[c] == widen(z, anc)[c]);
        assert forall|q: int| 0 <= q < d.len() implies (#[trigger] d[q]).len() == z.len() by {
            assert(d[q] == anc[q]);
        };
        lemma_widen_prefix_finite(z, d, i, c);
        assert(d.take(i) =~= anc.take(i));
    }
}

/// The Karp-Miller tree of every net is finite, from every root: the
/// construction of a coverability graph always ends.
pub proof fn lemma_km_tree_finite(net: NetView, root: Seq<ExtendedToken>)
    requires
        net.transitions.len() <= usize::MAX,
    ensures
        km_tree(net, root).finite(),
{
    if !km_tree(net, root).finite() {
        lemma_infinite_branch_ordered(net, root);
    }
}

/// An infinite Karp-Miller tree would have a node widened past an earlier
/// node of its branch although a count of it stays finite.
#[verifier::spinoff_prover]
#[verifier::rlimit(50)]
proof fn lemma_infinite_branch_ordered(net: NetView, root: Seq<ExtendedToken>)
    requires
        net.transitions.len() <= usize::MAX,
        !km_tree(net, root).finite(),
    ensures
        km_tree(net, root).finite(),
{
    let k = root.len();
    let big_n = lemma_omega_settles(net, root, k);
    let f = |i: nat| bnode(net, root, big_n + i);
    lemma_dickson(f, k, 0, 1);
    let h = select(f, k);
    let i = big_n + h(0);
    let j = big_n + h(1);
    assert(i < j);
    let xi = bnode(net, root, i);
    let xj = bnode(net, root, j);
    assert(f(h(0)) == xi && f(h(1)) == xj);
    assert(forall|c: int| 0 <= c < k ==> token_le(#[trigger] xi[c], xj[c])) by {
        assert forall|c: int| 0 <= c < k implies token_le(#[trigger] xi[c], xj[c]) by {
            assert(token_le(f(h(0))[c], f(h(1))[c]));
        };
    };
    lemma_branch_ancestors(net, root, j);
    lemma_branch_step(net, root, j);
    lemma_branch_step(net, root, i);
    assert(banc(net, root, j)[i as int] == xi);
    assert(xj != xi);
    let q = choose|q: int| 0 <= q < k && xi[q] != xj[q];
    assert(exists|q: int| 0 <= q < k && xi[q] != xj[q]) by {
        if forall|q: int| 0 <= q < k ==> xi[q] == xj[q] {
            assert(xi =~= xj);
        }
    };
    assert(token_lt(xi[q], xj[q]));
    // the ω-places of xi and xj are those of the settled branch
    assert((xj[q] == ExtendedToken::Omega) == (bnode(net, root, big_n)[q] == ExtendedToken::Omega));
    assert((xi[q] == ExtendedToken::Omega) == (bnode(net, root, big_n)[q] == ExtendedToken::Omega));
    assert(xj[q] is Finite);
    // xj is the widening of the firing of its parent against the branch above it
    let jp = (j - 1) as nat;
    lemma_branch_step(net, root, jp);
    lemma_branch_ancestors(net, root, jp);
    let t = branch(net, root, jp + 1).last().0 as int;
    let xp = bnode(net, root, jp);
    let z = ext_fire(net.transitions[t], xp);
    let anc = banc(net, root, j);
    assert(anc == banc(net, root, jp).push(xp));
    assert(xj == widen(z, anc));
    assert forall|c: int| 0 <= c < anc.len() implies (#[trigger] anc[c]).len() == z.len() by {};
    let ai = anc.take(i as int);
    assert forall|c: int| 0 <= c < ai.len() implies (#[trigger] ai[c]).len() == z.len() by {
        assert(ai[c] == anc[c]);
    };
    lemma_widen_len(z, ai);
    let w = widen(z, ai);
    lemma_widen_len(z, anc);
    assert forall|c: int| 0 <= c < k implies !token_lt(#[trigger] w[c], xi[c]) by {
        if xj[c] is Finite {
            lemma_widen_prefix_finite(z, anc, i as int, c);
        } else {
            assert((xj[c] == ExtendedToken::Omega) == (bnode(net, root, big_n)[c] == ExtendedToken::Omega));
            assert((xi[c] == ExtendedToken::Omega) == (bnode(net, root, big_n)[c] == ExtendedToken::Omega));
            assert((xp[c] == ExtendedToken::Omega) == (bnode(net, root, big_n)[c] == ExtendedToken::Omega));
            assert(z[c] == ExtendedToken::Omega);
            lemma_widen_keeps_omega(z, ai, c);
        }
    };
    lemma_widen_prefix_finite(z, anc, i as int, q);
    assert(w[q] == xj[q]);
    assert(dominates(w, xi));
    let ai1 = anc.take(i + 1int);
    assert(ai1.drop_last() =~= ai);
    assert(ai1.last() == xi);
    assert(widen(z, ai1) == promote(w, xi));
    assert(promote(w, xi)[q] == ExtendedToken::Omega);
    lemma_widen_prefix_finite(z, anc, i + 1int, q);
}

} // verus!
