//! The editing rules behind the canvas: what can be selected and connected,
//! how arcs are drawn and labelled, and what deleting a selection does to the net.
use vstd::prelude::*;

use crate::liveness::Liveness;
use crate::model::{has_place, kind_weight, lemma_without_place_sub, without_place, ArcKind, ModelView, PetriNet, PlaceId, TransitionId};

verus! {

/// A node of the editable net.
#[derive(Clone, Copy, PartialEq, Eq, Hash, PartialOrd, Ord, Debug, Structural)]
pub enum NodeId {
    Place(PlaceId),
    Transition(TransitionId),
}

/// Key of a free-form note on the canvas (the slot map key, as a 64-bit integer).
#[derive(Clone, Copy, PartialEq, Eq, Hash, PartialOrd, Ord, Debug, Structural)]
pub struct NoteId(pub u64);

/// What a click on the canvas does.
#[derive(Clone, Copy, PartialEq, Eq, Hash, Debug, Structural)]
pub enum EditMode {
    Select,
    AddPlace,
    AddTransition,
    Connect,
    AddNote,
}

/// What is selected on the canvas.
#[derive(Clone, Debug)]
pub enum Selection {
    /// Nothing.
    Empty,
    /// One or more nodes, each once.
    Nodes(Vec<NodeId>),
    /// The input arc from a place to a transition.
    ArcIn(PlaceId, TransitionId),
    /// The output arc from a transition to a place.
    ArcOut(TransitionId, PlaceId),
    /// A note.
    Note(NoteId),
}

impl Default for Selection {
    fn default() -> (r: Self)
        ensures
            r is Empty,
    {
        Selection::Empty
    }
}

/// How the end of an arc is drawn.
#[derive(Clone, Copy, PartialEq, Eq, Debug, Structural)]
pub enum ArcEnd {
    Arrow,
    DoubleArrow,
    Circle,
}

/// Consume arcs end in an arrow, peek arcs in a double arrow, inhibitor arcs in a circle.
pub fn arc_end_for_kind(kind: ArcKind) -> (r: ArcEnd)
    ensures
        r == match kind {
            ArcKind::Consume(_) => ArcEnd::Arrow,
            ArcKind::Peek(_) => ArcEnd::DoubleArrow,
            ArcKind::Inhibit(_) => ArcEnd::Circle,
        },
{
    match kind {
        ArcKind::Consume(_) => ArcEnd::Arrow,
        ArcKind::Peek(_) => ArcEnd::DoubleArrow,
        ArcKind::Inhibit(_) => ArcEnd::Circle,
    }
}

/// An arc can join `from` to `to`: a place to a transition or a transition to a place.
pub open spec fn can_connect(from: NodeId, to: NodeId) -> bool {
    (from is Place && to is Transition) || (from is Transition && to is Place)
}

/// Whether an arc can join `from` to `to`.
pub fn compatible(from: NodeId, to: NodeId) -> (b: bool)
    ensures
        b == can_connect(from, to),
{
    match (from, to) {
        (NodeId::Place(_), NodeId::Transition(_)) => true,
        (NodeId::Transition(_), NodeId::Place(_)) => true,
        _ => false,
    }
}

/// Whether arcs run both ways between `p` and `t`.
pub fn is_reciprocal(net: &PetriNet, p: PlaceId, t: TransitionId) -> (b: bool)
    requires
        net.wf(),
    ensures
        b == (has_place(net@.inputs(t.0), p) && has_place(net@.outputs(t.0), p)),
{
    let ins = net.inputs(t);
    let mut found_in = false;
    let mut i: usize = 0;
    while i < ins.len()
        invariant
            ins@ == net@.inputs(t.0),
            i <= ins@.len(),
            found_in == exists|j: int| 0 <= j < i && (#[trigger] ins@[j]).0 == p,
        decreases ins@.len() - i,
    {
        if ins[i].0 == p {
            found_in = true;
        }
        i += 1;
    }
    if !found_in {
        return false;
    }
    assert(has_place(net@.inputs(t.0), p));
    let outs = net.outputs(t);
    let mut j: usize = 0;
    while j < outs.len()
        invariant
            outs@ == net@.outputs(t.0),
            has_place(net@.inputs(t.0), p),
            j <= outs@.len(),
            forall|k: int| 0 <= k < j ==> (#[trigger] outs@[k]).0 != p,
        decreases outs@.len() - j,
    {
        if outs[j].0 == p {
            assert(outs@[j as int].0 == p);
            return true;
        }
        j += 1;
    }
    false
}

/// Adds an arc of weight one from `from` to `to` (a consume arc from a place),
/// when they are a place and a transition; reports whether it added one.
pub fn connect(net: &mut PetriNet, from: NodeId, to: NodeId) -> (added: bool)
    requires
        old(net).wf(),
    ensures
        final(net).wf(),
        match (from, to) {
            (NodeId::Place(p), NodeId::Transition(t)) => {
                &&& added == (old(net)@.places.dom().contains(p.0) && old(net)@.transitions.dom().contains(t.0) && !has_place(
                    old(net)@.transitions[t.0].inputs@,
                    p,
                ))
                &&& added ==> final(net)@.transitions == old(net)@.transitions.insert(t.0, final(net)@.transitions[t.0])
                    && final(net)@.transitions[t.0].inputs@ == old(net)@.transitions[t.0].inputs@.push((p, ArcKind::Consume(1)))
                    && final(net)@.transitions[t.0].outputs@ == old(net)@.transitions[t.0].outputs@
                    && final(net)@.transitions[t.0].label == old(net)@.transitions[t.0].label
            },
            (NodeId::Transition(t), NodeId::Place(p)) => {
                &&& added == (old(net)@.places.dom().contains(p.0) && old(net)@.transitions.dom().contains(t.0) && !has_place(
                    old(net)@.transitions[t.0].outputs@,
                    p,
                ))
                &&& added ==> final(net)@.transitions == old(net)@.transitions.insert(t.0, final(net)@.transitions[t.0])
                    && final(net)@.transitions[t.0].outputs@ == old(net)@.transitions[t.0].outputs@.push((p, 1u32))
                    && final(net)@.transitions[t.0].inputs@ == old(net)@.transitions[t.0].inputs@
                    && final(net)@.transitions[t.0].label == old(net)@.transitions[t.0].label
            },
            _ => !added,
        },
        !added ==> final(net)@.places == old(net)@.places && final(net)@.transitions == old(net)@.transitions,
        added ==> final(net)@.places == old(net)@.places,
{
    let ghost before = net@;
    match (from, to) {
        (NodeId::Place(p), NodeId::Transition(t)) => {
            let r = net.add_arc_place_to_transition(p, t, ArcKind::Consume(1));
            proof {
                if r is Ok {
                    assert(net@.transitions =~= before.transitions.insert(t.0, net@.transitions[t.0]));
                }
            }
            r.is_ok()
        },
        (NodeId::Transition(t), NodeId::Place(p)) => {
            let r = net.add_arc_transition_to_place(t, p, 1);
            proof {
                if r is Ok {
                    assert(net@.transitions =~= before.transitions.insert(t.0, net@.transitions[t.0]));
                }
            }
            r.is_ok()
        },
        _ => false,
    }
}

/// The arcs of `s` whose place is not among `ps`, in order.
pub open spec fn without_places<K>(s: Seq<(PlaceId, K)>, ps: Set<u64>) -> Seq<(PlaceId, K)>
    decreases s.len(),
{
    if s.len() == 0 {
        s
    } else {
        let r = without_places(s.drop_last(), ps);
        if ps.contains(s.last().0.0) {
            r
        } else {
            r.push(s.last())
        }
    }
}

/// Removing the arcs of one more place after those of `ps`.
proof fn lemma_without_one_more<K>(s: Seq<(PlaceId, K)>, ps: Set<u64>, p: PlaceId)
    ensures
        without_place(without_places(s, ps), p) == without_places(s, ps.insert(p.0)),
    decreases s.len(),
{
    if s.len() > 0 {
        lemma_without_one_more(s.drop_last(), ps, p);
        let r = without_places(s.drop_last(), ps);
        if !ps.contains(s.last().0.0) {
            assert(r.push(s.last()).drop_last() =~= r);
        }
    }
}

/// The place keys and transition keys of a list of nodes.
pub open spec fn place_keys_of(ns: Seq<NodeId>) -> Set<u64> {
    Set::new(|k: u64| ns.contains(NodeId::Place(PlaceId(k))))
}

/// The transition keys of a list of nodes.
pub open spec fn transition_keys_of(ns: Seq<NodeId>) -> Set<u64> {
    Set::new(|k: u64| ns.contains(NodeId::Transition(TransitionId(k))))
}

/// `w` is `v` without the places `ps` and the transitions `ts`, and without
/// every arc on a removed place.
pub open spec fn without_nodes(w: ModelView, v: ModelView, ps: Set<u64>, ts: Set<u64>) -> bool {
    &&& w.places == v.places.remove_keys(ps)
    &&& w.transitions.dom() == v.transitions.dom().difference(ts)
    &&& forall|t: u64| #[trigger] w.transitions.dom().contains(t) ==> {
        &&& w.transitions[t].label == v.transitions[t].label
        &&& w.transitions[t].inputs@ == without_places(v.transitions[t].inputs@, ps)
        &&& w.transitions[t].outputs@ == without_places(v.transitions[t].outputs@, ps)
    }
}

/// What a sequence with one more element contains.
proof fn lemma_push_contains<A>(s: Seq<A>, x: A, y: A)
    ensures
        s.push(x).contains(y) <==> (s.contains(y) || y == x),
{
    if s.contains(y) {
        let j = choose|j: int| 0 <= j < s.len() && s[j] == y;
        assert(s.push(x)[j] == y);
    }
    if y == x {
        assert(s.push(x)[s.len() as int] == y);
    }
    if s.push(x).contains(y) {
        let j = choose|j: int| 0 <= j < s.push(x).len() && s.push(x)[j] == y;
        if j < s.len() {
            assert(s[j] == y);
        }
    }
}

/// Removing no arcs.
proof fn lemma_without_none<K>(s: Seq<(PlaceId, K)>)
    ensures
        without_places(s, Set::empty()) == s,
    decreases s.len(),
{
    if s.len() > 0 {
        lemma_without_none(s.drop_last());
        assert(s.drop_last().push(s.last()) =~= s);
    }
}

/// Removes the nodes `ns` from `net`, with every arc on a removed place.
pub fn delete_nodes(net: &mut PetriNet, ns: &Vec<NodeId>)
    requires
        old(net).wf(),
    ensures
        final(net).wf(),
        without_nodes(final(net)@, old(net)@, place_keys_of(ns@), transition_keys_of(ns@)),
{
    let ghost v = net@;
    let mut i: usize = 0;
    proof {
        assert(place_keys_of(ns@.take(0)) =~= Set::<u64>::empty());
        assert(transition_keys_of(ns@.take(0)) =~= Set::<u64>::empty());
        assert(v.places.remove_keys(Set::empty()) =~= v.places);
        assert(v.transitions.dom().difference(Set::empty()) =~= v.transitions.dom());
        assert forall|t: u64| #[trigger] net@.transitions.dom().contains(t) implies {
            &&& net@.transitions[t].inputs@ == without_places(v.transitions[t].inputs@, Set::empty())
            &&& net@.transitions[t].outputs@ == without_places(v.transitions[t].outputs@, Set::empty())
        } by {
            lemma_without_none(v.transitions[t].inputs@);
            lemma_without_none(v.transitions[t].outputs@);
        };
    }
    while i < ns.len()
        invariant
            i <= ns@.len(),
            net.wf(),
            without_nodes(net@, v, place_keys_of(ns@.take(i as int)), transition_keys_of(ns@.take(i as int))),
        decreases ns@.len() - i,
    {
        let ghost cur = net@;
        let ghost ps = place_keys_of(ns@.take(i as int));
        let ghost ts = transition_keys_of(ns@.take(i as int));
        let n = ns[i];
        assert(ns@.take(i + 1) =~= ns@.take(i as int).push(n));
        match n {
            NodeId::Place(p) => {
                net.remove_place(p);
                proof {
                    let ps2 = place_keys_of(ns@.take(i + 1));
                    let ts2 = transition_keys_of(ns@.take(i + 1));
                    assert forall|k: u64| #[trigger] ps2.contains(k) <==> ps.insert(p.0).contains(k) by {
                        lemma_push_contains(ns@.take(i as int), n, NodeId::Place(PlaceId(k)));
                    };
                    assert(ps2 =~= ps.insert(p.0));
                    assert forall|k: u64| #[trigger] ts2.contains(k) <==> ts.contains(k) by {
                        lemma_push_contains(ns@.take(i as int), n, NodeId::Transition(TransitionId(k)));
                    };
                    assert(ts2 =~= ts);
                    assert(net@.places =~= v.places.remove_keys(ps2));
                    assert forall|t: u64| #[trigger] net@.transitions.dom().contains(t) implies {
                        &&& net@.transitions[t].label == v.transitions[t].label
                        &&& net@.transitions[t].inputs@ == without_places(v.transitions[t].inputs@, ps2)
                        &&& net@.transitions[t].outputs@ == without_places(v.transitions[t].outputs@, ps2)
                    } by {
                        lemma_without_one_more(v.transitions[t].inputs@, ps, p);
                        lemma_without_one_more(v.transitions[t].outputs@, ps, p);
                    };
                }
            },
            NodeId::Transition(t) => {
                net.remove_transition(t);
                proof {
                    let ps2 = place_keys_of(ns@.take(i + 1));
                    let ts2 = transition_keys_of(ns@.take(i + 1));
                    assert(ps2 =~= ps);
                    assert forall|k: u64| #[trigger] ts2.contains(k) <==> ts.insert(t.0).contains(k) by {
                        lemma_push_contains(ns@.take(i as int), n, NodeId::Transition(TransitionId(k)));
                    };
                    assert(ts2 =~= ts.insert(t.0));
                    assert forall|k: u64| #[trigger] ps2.contains(k) <==> ps.contains(k) by {
                        lemma_push_contains(ns@.take(i as int), n, NodeId::Place(PlaceId(k)));
                    };
                    assert(net@.transitions.dom() =~= v.transitions.dom().difference(ts2));
                }
            },
        }
        i += 1;
    }
    assert(ns@.take(i as int) =~= ns@);
}

/// Deletes what `sel` selects from `net`: nodes with the arcs on removed
/// places, or one arc. A note or an empty selection leaves the net as it is.
pub fn delete_selection(net: &mut PetriNet, sel: &Selection)
    requires
        old(net).wf(),
    ensures
        final(net).wf(),
        match sel {
            Selection::Nodes(ns) => without_nodes(final(net)@, old(net)@, place_keys_of(ns@), transition_keys_of(ns@)),
            Selection::ArcIn(p, t) => final(net)@.places == old(net)@.places && final(net)@.transitions.dom()
                == old(net)@.transitions.dom() && (forall|k: u64| #[trigger] final(net)@.transitions.dom().contains(k)
                ==> final(net)@.transitions[k] == if k == t.0 {
                final(net)@.transitions[k]
            } else {
                old(net)@.transitions[k]
            }) && (old(net)@.transitions.dom().contains(t.0) ==> final(net)@.transitions[t.0].inputs@ == without_place(
                old(net)@.transitions[t.0].inputs@,
                *p,
            ) && final(net)@.transitions[t.0].outputs@ == old(net)@.transitions[t.0].outputs@
                && final(net)@.transitions[t.0].label == old(net)@.transitions[t.0].label),
            Selection::ArcOut(t, p) => final(net)@.places == old(net)@.places && final(net)@.transitions.dom()
                == old(net)@.transitions.dom() && (forall|k: u64| #[trigger] final(net)@.transitions.dom().contains(k)
                ==> final(net)@.transitions[k] == if k == t.0 {
                final(net)@.transitions[k]
            } else {
                old(net)@.transitions[k]
            }) && (old(net)@.transitions.dom().contains(t.0) ==> final(net)@.transitions[t.0].outputs@ == without_place(
                old(net)@.transitions[t.0].outputs@,
                *p,
            ) && final(net)@.transitions[t.0].inputs@ == old(net)@.transitions[t.0].inputs@
                && final(net)@.transitions[t.0].label == old(net)@.transitions[t.0].label),
            _ => final(net)@.places == old(net)@.places && final(net)@.transitions == old(net)@.transitions,
        },
{
    match sel {
        Selection::Nodes(ns) => delete_nodes(net, ns),
        Selection::ArcIn(p, t) => net.remove_arc_place_to_transition(*p, *t),
        Selection::ArcOut(t, p) => net.remove_arc_transition_to_place(*t, *p),
        _ => {},
    }
}

/// The kind an input arc takes when switched to `to`: a consume arc keeps the
/// weight, a peek or an inhibitor arc keeps at most one.
pub open spec fn switched_kind(k: ArcKind, to: ArcKindTag) -> ArcKind {
    let w = kind_weight(k);
    let capped: u32 = if w < 1 { w } else { 1 };
    match to {
        ArcKindTag::Consume => ArcKind::Consume(w),
        ArcKindTag::Peek => ArcKind::Peek(capped),
        ArcKindTag::Inhibit => ArcKind::Inhibit(capped),
    }
}

/// The input arc `k` switched to kind `to` (see [`switched_kind`]).
pub fn switch_kind(k: ArcKind, to: ArcKindTag) -> (r: ArcKind)
    ensures
        r == switched_kind(k, to),
{
    let w = k.weight();
    match to {
        ArcKindTag::Consume => ArcKind::Consume(w),
        ArcKindTag::Peek => ArcKind::Peek(if w < 1 { w } else { 1 }),
        ArcKindTag::Inhibit => ArcKind::Inhibit(if w < 1 { w } else { 1 }),
    }
}

/// Position of the arc on place `p` among the arcs `s`, if there is one.
fn arc_position<K>(s: &[(PlaceId, K)], p: PlaceId) -> (r: Option<usize>)
    ensures
        r is None ==> !has_place(s@, p),
        r matches Some(i) ==> i < s@.len() && s@[i as int].0 == p,
{
    let mut i: usize = 0;
    while i < s.len()
        invariant
            i <= s@.len(),
            forall|j: int| 0 <= j < i ==> (#[trigger] s@[j]).0 != p,
        decreases s@.len() - i,
    {
        if s[i].0 == p {
            return Some(i);
        }
        i += 1;
    }
    None
}

/// Switches the input arc `p -> t` to kind `to` (see [`switched_kind`]),
/// moving it to the end of `t`'s input arcs; reports whether there was such an arc.
pub fn set_input_kind(net: &mut PetriNet, p: PlaceId, t: TransitionId, to: ArcKindTag) -> (switched: bool)
    requires
        old(net).wf(),
    ensures
        final(net).wf(),
        switched == has_place(old(net)@.inputs(t.0), p),
        final(net)@.places == old(net)@.places,
        !switched ==> final(net)@.transitions == old(net)@.transitions,
        switched ==> final(net)@.transitions == old(net)@.transitions.insert(t.0, final(net)@.transitions[t.0])
            && final(net)@.transitions[t.0].label == old(net)@.transitions[t.0].label
            && final(net)@.transitions[t.0].outputs@ == old(net)@.transitions[t.0].outputs@
            && forall|i: int| 0 <= i < old(net)@.inputs(t.0).len() && (#[trigger] old(net)@.inputs(t.0)[i]).0 == p
                ==> final(net)@.transitions[t.0].inputs@ == without_place(old(net)@.inputs(t.0), p).push(
                    (p, switched_kind(old(net)@.inputs(t.0)[i].1, to)),
                ),
{
    let ghost before = net@;
    let pos = arc_position(net.inputs(t), p);
    match pos {
        None => false,
        Some(i) => {
            let k = net.inputs(t)[i].1;
            let kind = switch_kind(k, to);
            proof {
                assert(before.transitions.dom().contains(t.0));
                assert(before.places.dom().contains(p.0));
            }
            net.remove_arc_place_to_transition(p, t);
            proof {
                lemma_without_place_sub(before.transitions[t.0].inputs@, p);
                if has_place(net@.transitions[t.0].inputs@, p) {
                    let j = choose|j: int| 0 <= j < net@.transitions[t.0].inputs@.len() && (#[trigger] net@.transitions[t.0].inputs@[j]).0 == p;
                    assert(without_place(before.transitions[t.0].inputs@, p)[j].0 != p);
                }
            }
            let r = net.add_arc_place_to_transition(p, t, kind);
            proof {
                assert(r is Ok);
                assert(net@.transitions =~= before.transitions.insert(t.0, net@.transitions[t.0]));
                assert forall|j: int| 0 <= j < before.inputs(t.0).len() && (#[trigger] before.inputs(t.0)[j]).0 == p
                    implies j == i by {
                    if j != i {
                        assert(crate::model::distinct_places(before.transitions[t.0].inputs@));
                    }
                };
            }
            true
        },
    }
}

/// An output arc's weight one step up, at most 99.
pub open spec fn raised_weight(w: u32) -> u32 {
    if w < 98 { (w + 1) as u32 } else { 99 }
}

/// An output arc's weight one step down while it is above one.
pub open spec fn lowered_weight(w: u32) -> u32 {
    if w > 1 { (w - 1) as u32 } else { w }
}

/// Raises (when `up`) or lowers the weight of the output arc `t -> p`; reports whether there was such an arc.
fn reweigh_output(net: &mut PetriNet, t: TransitionId, p: PlaceId, up: bool) -> (changed: bool)
    requires
        old(net).wf(),
    ensures
        final(net).wf(),
        changed == has_place(old(net)@.outputs(t.0), p),
        final(net)@.places == old(net)@.places,
        !changed ==> final(net)@.transitions == old(net)@.transitions,
        changed ==> final(net)@.transitions == old(net)@.transitions.insert(t.0, final(net)@.transitions[t.0])
            && final(net)@.transitions[t.0].label == old(net)@.transitions[t.0].label
            && final(net)@.transitions[t.0].inputs@ == old(net)@.transitions[t.0].inputs@
            && forall|i: int| 0 <= i < old(net)@.outputs(t.0).len() && (#[trigger] old(net)@.outputs(t.0)[i]).0 == p
                ==> final(net)@.transitions[t.0].outputs@ == without_place(old(net)@.outputs(t.0), p).push(
                    (p, if up { raised_weight(old(net)@.outputs(t.0)[i].1) } else { lowered_weight(old(net)@.outputs(t.0)[i].1) }),
                ),
{
    let ghost before = net@;
    let pos = arc_position(net.outputs(t), p);
    match pos {
        None => false,
        Some(i) => {
            let w = net.outputs(t)[i].1;
            let nw: u32 = if up {
                if w < 98 { w + 1 } else { 99 }
            } else {
                if w > 1 { w - 1 } else { w }
            };
            proof {
                assert(before.transitions.dom().contains(t.0));
                assert(before.places.dom().contains(p.0));
            }
            net.remove_arc_transition_to_place(t, p);
            proof {
                lemma_without_place_sub(before.transitions[t.0].outputs@, p);
                if has_place(net@.transitions[t.0].outputs@, p) {
                    let j = choose|j: int| 0 <= j < net@.transitions[t.0].outputs@.len() && (#[trigger] net@.transitions[t.0].outputs@[j]).0 == p;
                    assert(without_place(before.transitions[t.0].outputs@, p)[j].0 != p);
                }
            }
            let r = net.add_arc_transition_to_place(t, p, nw);
            proof {
                assert(r is Ok);
                assert(net@.transitions =~= before.transitions.insert(t.0, net@.transitions[t.0]));
                assert forall|j: int| 0 <= j < before.outputs(t.0).len() && (#[trigger] before.outputs(t.0)[j]).0 == p
                    implies j == i by {
                    if j != i {
                        assert(crate::model::distinct_places(before.transitions[t.0].outputs@));
                    }
                };
            }
            true
        },
    }
}

/// Raises the weight of the output arc `t -> p` by one, to at most 99 (see
/// [`raised_weight`]), moving it to the end of `t`'s output arcs; reports
/// whether there was such an arc.
pub fn raise_output_weight(net: &mut PetriNet, t: TransitionId, p: PlaceId) -> (changed: bool)
    requires
        old(net).wf(),
    ensures
        final(net).wf(),
        changed == has_place(old(net)@.outputs(t.0), p),
        final(net)@.places == old(net)@.places,
        !changed ==> final(net)@.transitions == old(net)@.transitions,
        changed ==> final(net)@.transitions == old(net)@.transitions.insert(t.0, final(net)@.transitions[t.0])
            && final(net)@.transitions[t.0].label == old(net)@.transitions[t.0].label
            && final(net)@.transitions[t.0].inputs@ == old(net)@.transitions[t.0].inputs@
            && forall|i: int| 0 <= i < old(net)@.outputs(t.0).len() && (#[trigger] old(net)@.outputs(t.0)[i]).0 == p
                ==> final(net)@.transitions[t.0].outputs@ == without_place(old(net)@.outputs(t.0), p).push(
                    (p, raised_weight(old(net)@.outputs(t.0)[i].1)),
                ),
{
    reweigh_output(net, t, p, true)
}

/// Lowers the weight of the output arc `t -> p` by one while it is above one
/// (see [`lowered_weight`]), moving it to the end of `t`'s output arcs;
/// reports whether there was such an arc.
pub fn lower_output_weight(net: &mut PetriNet, t: TransitionId, p: PlaceId) -> (changed: bool)
    requires
        old(net).wf(),
    ensures
        final(net).wf(),
        changed == has_place(old(net)@.outputs(t.0), p),
        final(net)@.places == old(net)@.places,
        !changed ==> final(net)@.transitions == old(net)@.transitions,
        changed ==> final(net)@.transitions == old(net)@.transitions.insert(t.0, final(net)@.transitions[t.0])
            && final(net)@.transitions[t.0].label == old(net)@.transitions[t.0].label
            && final(net)@.transitions[t.0].inputs@ == old(net)@.transitions[t.0].inputs@
            && forall|i: int| 0 <= i < old(net)@.outputs(t.0).len() && (#[trigger] old(net)@.outputs(t.0)[i]).0 == p
                ==> final(net)@.transitions[t.0].outputs@ == without_place(old(net)@.outputs(t.0), p).push(
                    (p, lowered_weight(old(net)@.outputs(t.0)[i].1)),
                ),
{
    reweigh_output(net, t, p, false)
}

/// Adds one token to place `p`.
pub fn add_token(net: &mut PetriNet, p: PlaceId)
    requires
        old(net).wf(),
        old(net)@.tokens(p.0) < u32::MAX,
    ensures
        final(net).wf(),
        final(net)@.places.dom() == old(net)@.places.dom(),
        forall|k: u64| #[trigger] final(net)@.places.dom().contains(k) ==> final(net)@.places[k].label == old(net)@.places[k].label,
        forall|k: u64| #[trigger] final(net)@.places.dom().contains(k) ==> final(net)@.places[k].tokens
            == if k == p.0 { (old(net)@.places[k].tokens + 1) as u32 } else { old(net)@.places[k].tokens },
        final(net)@.transitions == old(net)@.transitions,
{
    let n = net.tokens(p);
    net.set_tokens(p, n + 1);
}

/// Takes one token from place `p`, if it holds any.
pub fn remove_token(net: &mut PetriNet, p: PlaceId)
    requires
        old(net).wf(),
    ensures
        final(net).wf(),
        final(net)@.places.dom() == old(net)@.places.dom(),
        forall|k: u64| #[trigger] final(net)@.places.dom().contains(k) ==> final(net)@.places[k].label == old(net)@.places[k].label,
        forall|k: u64| #[trigger] final(net)@.places.dom().contains(k) ==> final(net)@.places[k].tokens
            == if k == p.0 && old(net)@.places[k].tokens > 0 { (old(net)@.places[k].tokens - 1) as u32 } else { old(net)@.places[k].tokens },
        final(net)@.transitions == old(net)@.transitions,
{
    let n = net.tokens(p);
    net.set_tokens(p, n.saturating_sub(1));
}

/// The kind of an input arc, without its weight.
#[derive(Clone, Copy, PartialEq, Eq, Debug, Structural)]
pub enum ArcKindTag {
    Consume,
    Peek,
    Inhibit,
}

impl ArcKindTag {
    /// The kind of `kind`.
    pub fn from_kind(kind: ArcKind) -> (r: Self)
        ensures
            r == match kind {
                ArcKind::Consume(_) => ArcKindTag::Consume,
                ArcKind::Peek(_) => ArcKindTag::Peek,
                ArcKind::Inhibit(_) => ArcKindTag::Inhibit,
            },
    {
        match kind {
            ArcKind::Consume(_) => ArcKindTag::Consume,
            ArcKind::Peek(_) => ArcKindTag::Peek,
            ArcKind::Inhibit(_) => ArcKindTag::Inhibit,
        }
    }

    /// An arc of this kind with weight `weight`.
    pub fn to_kind(self, weight: u32) -> (r: ArcKind)
        ensures
            r == match self {
                ArcKindTag::Consume => ArcKind::Consume(weight),
                ArcKindTag::Peek => ArcKind::Peek(weight),
                ArcKindTag::Inhibit => ArcKind::Inhibit(weight),
            },
    {
        match self {
            ArcKindTag::Consume => ArcKind::Consume(weight),
            ArcKindTag::Peek => ArcKind::Peek(weight),
            ArcKindTag::Inhibit => ArcKind::Inhibit(weight),
        }
    }

    /// The icon shown for this kind.
    pub fn icon(self) -> (r: &'static str)
        ensures
            r@ == match self {
                ArcKindTag::Consume => "arrow-right"@,
                ArcKindTag::Peek => "eye"@,
                ArcKindTag::Inhibit => "ban"@,
            },
    {
        match self {
            ArcKindTag::Consume => "arrow-right",
            ArcKindTag::Peek => "eye",
            ArcKindTag::Inhibit => "ban",
        }
    }

    /// The tooltip shown for this kind.
    pub fn tooltip(self) -> (r: &'static str)
        ensures
            r@ == match self {
                ArcKindTag::Consume => "Consume: resta tokens al disparar"@,
                ArcKindTag::Peek => "Peek: requiere tokens pero no los consume"@,
                ArcKindTag::Inhibit => "Inhibit: bloquea mientras haya tokens"@,
            },
    {
        match self {
            ArcKindTag::Consume => "Consume: resta tokens al disparar",
            ArcKindTag::Peek => "Peek: requiere tokens pero no los consume",
            ArcKindTag::Inhibit => "Inhibit: bloquea mientras haya tokens",
        }
    }
}

/// The icon and tooltip of the toolbar button for `mode`.
pub fn mode_icon_and_tooltip(mode: EditMode) -> (r: (&'static str, &'static str))
    ensures
        (r.0@, r.1@) == match mode {
            EditMode::Select => ("mouse-pointer-2"@, "Seleccionar / token game (V)"@),
            EditMode::AddPlace => ("circle"@, "Agregar place (P)"@),
            EditMode::AddTransition => ("rectangle-vertical"@, "Agregar transition (T)"@),
            EditMode::Connect => ("cable"@, "Conectar arco (C)"@),
            EditMode::AddNote => ("sticky-note"@, "Agregar nota (N)"@),
        },
{
    match mode {
        EditMode::Select => ("mouse-pointer-2", "Seleccionar / token game (V)"),
        EditMode::AddPlace => ("circle", "Agregar place (P)"),
        EditMode::AddTransition => ("rectangle-vertical", "Agregar transition (T)"),
        EditMode::Connect => ("cable", "Conectar arco (C)"),
        EditMode::AddNote => ("sticky-note", "Agregar nota (N)"),
    }
}

/// How a liveness level is named in the properties panel.
pub fn liveness_label(level: Liveness) -> (r: &'static str)
    ensures
        r@ == match level {
            Liveness::Dead => "muerta (L0)"@,
            Liveness::PotentiallyFirable => "disparable (L1)"@,
            Liveness::ArbitrarilyRepeatable => "repetible arbitrariamente (L2)"@,
            Liveness::RepeatableForever => "repetible por siempre (L3)"@,
            Liveness::Total => "live (L4)"@,
        },
{
    match level {
        Liveness::Dead => "muerta (L0)",
        Liveness::PotentiallyFirable => "disparable (L1)",
        Liveness::ArbitrarilyRepeatable => "repetible arbitrariamente (L2)",
        Liveness::RepeatableForever => "repetible por siempre (L3)",
        Liveness::Total => "live (L4)",
    }
}

} // verus!
