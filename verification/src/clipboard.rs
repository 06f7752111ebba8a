//! Copying part of the net and pasting it back as new nodes: the copied
//! nodes with their data, and the arcs that ran strictly between two of them.
use vstd::prelude::*;

use crate::editor::NodeId;
use crate::model::{has_place, ArcKind, ModelView, PetriNet, PlaceId, TransitionId};

verus! {

/// A copied node.
#[derive(Clone, Debug)]
pub enum ClipNode {
    Place { label: String, tokens: u32 },
    Transition { label: String },
}

/// What a copied node holds.
pub enum ClipNodeView {
    Place(Seq<char>, u32),
    Transition(Seq<char>),
}

impl ClipNode {
    pub open spec fn view(&self) -> ClipNodeView {
        match self {
            ClipNode::Place { label, tokens } => ClipNodeView::Place(label@, *tokens),
            ClipNode::Transition { label } => ClipNodeView::Transition(label@),
        }
    }
}

/// A copied selection: the nodes under the ids they had, and the arcs between them.
#[derive(Clone, Debug)]
pub struct Clipboard {
    pub nodes: Vec<(NodeId, ClipNode)>,
    pub arcs_in: Vec<(NodeId, NodeId, ArcKind)>,
    pub arcs_out: Vec<(NodeId, NodeId, u32)>,
}

/// What a clipboard holds.
pub struct ClipView {
    pub nodes: Seq<(NodeId, ClipNodeView)>,
    pub arcs_in: Seq<(NodeId, NodeId, ArcKind)>,
    pub arcs_out: Seq<(NodeId, NodeId, u32)>,
}

impl Clipboard {
    pub open spec fn view(&self) -> ClipView {
        ClipView {
            nodes: self.nodes@.map_values(|n: (NodeId, ClipNode)| (n.0, n.1.view())),
            arcs_in: self.arcs_in@,
            arcs_out: self.arcs_out@,
        }
    }
}

/// The net `v` holds node `n`.
pub open spec fn node_exists(v: ModelView, n: NodeId) -> bool {
    match n {
        NodeId::Place(p) => v.places.dom().contains(p.0),
        NodeId::Transition(t) => v.transitions.dom().contains(t.0),
    }
}

/// What is copied of node `n` of `v`.
pub open spec fn node_data(v: ModelView, n: NodeId) -> ClipNodeView {
    match n {
        NodeId::Place(p) => ClipNodeView::Place(v.places[p.0].label@, v.places[p.0].tokens),
        NodeId::Transition(t) => ClipNodeView::Transition(v.transitions[t.0].label@),
    }
}

/// The nodes of `sel` that `v` holds, in order, with their data.
pub open spec fn copied_nodes(v: ModelView, sel: Seq<NodeId>) -> Seq<(NodeId, ClipNodeView)>
    decreases sel.len(),
{
    if sel.len() == 0 {
        Seq::empty()
    } else {
        let r = copied_nodes(v, sel.drop_last());
        if node_exists(v, sel.last()) {
            r.push((sel.last(), node_data(v, sel.last())))
        } else {
            r
        }
    }
}

/// The input arcs of `t` from places of `all`, in order.
pub open spec fn internal_inputs(ins: Seq<(PlaceId, ArcKind)>, t: TransitionId, all: Seq<NodeId>) -> Seq<(NodeId, NodeId, ArcKind)>
    decreases ins.len(),
{
    if ins.len() == 0 {
        Seq::empty()
    } else {
        let r = internal_inputs(ins.drop_last(), t, all);
        if all.contains(NodeId::Place(ins.last().0)) {
            r.push((NodeId::Place(ins.last().0), NodeId::Transition(t), ins.last().1))
        } else {
            r
        }
    }
}

/// The output arcs of `t` to places of `all`, in order.
pub open spec fn internal_outputs(outs: Seq<(PlaceId, u32)>, t: TransitionId, all: Seq<NodeId>) -> Seq<(NodeId, NodeId, u32)>
    decreases outs.len(),
{
    if outs.len() == 0 {
        Seq::empty()
    } else {
        let r = internal_outputs(outs.drop_last(), t, all);
        if all.contains(NodeId::Place(outs.last().0)) {
            r.push((NodeId::Transition(t), NodeId::Place(outs.last().0), outs.last().1))
        } else {
            r
        }
    }
}

/// The input arcs between nodes of `all`, transition by transition of `sel`.
pub open spec fn copied_arcs_in(v: ModelView, sel: Seq<NodeId>, all: Seq<NodeId>) -> Seq<(NodeId, NodeId, ArcKind)>
    decreases sel.len(),
{
    if sel.len() == 0 {
        Seq::empty()
    } else {
        let r = copied_arcs_in(v, sel.drop_last(), all);
        match sel.last() {
            NodeId::Transition(t) => r + internal_inputs(v.inputs(t.0), t, all),
            NodeId::Place(_) => r,
        }
    }
}

/// The output arcs between nodes of `all`, transition by transition of `sel`.
pub open spec fn copied_arcs_out(v: ModelView, sel: Seq<NodeId>, all: Seq<NodeId>) -> Seq<(NodeId, NodeId, u32)>
    decreases sel.len(),
{
    if sel.len() == 0 {
        Seq::empty()
    } else {
        let r = copied_arcs_out(v, sel.drop_last(), all);
        match sel.last() {
            NodeId::Transition(t) => r + internal_outputs(v.outputs(t.0), t, all),
            NodeId::Place(_) => r,
        }
    }
}

/// Whether `v` holds `x`.
fn has_node(v: &Vec<NodeId>, x: NodeId) -> (b: bool)
    ensures
        b == v@.contains(x),
{
    let mut i: usize = 0;
    while i < v.len()
        invariant
            i <= v@.len(),
            forall|j: int| 0 <= j < i ==> v@[j] != x,
        decreases v@.len() - i,
    {
        if v[i] == x {
            assert(v@[i as int] == x);
            return true;
        }
        i += 1;
    }
    false
}

/// Copies the nodes of `selected` that `net` holds, with the arcs that run
/// between two selected nodes; nothing when no selected node is in the net.
pub fn copy_nodes(net: &PetriNet, selected: &Vec<NodeId>) -> (r: Option<Clipboard>)
    requires
        net.wf(),
    ensures
        copied_nodes(net@, selected@).len() == 0 ==> r is None,
        copied_nodes(net@, selected@).len() > 0 ==> (r matches Some(c) && c.view() == (ClipView {
            nodes: copied_nodes(net@, selected@),
            arcs_in: copied_arcs_in(net@, selected@, selected@),
            arcs_out: copied_arcs_out(net@, selected@, selected@),
        })),
{
    let ghost v = net@;
    let ghost sel = selected@;
    let mut nodes: Vec<(NodeId, ClipNode)> = Vec::new();
    let mut arcs_in: Vec<(NodeId, NodeId, ArcKind)> = Vec::new();
    let mut arcs_out: Vec<(NodeId, NodeId, u32)> = Vec::new();
    let mut i: usize = 0;
    assert(sel.take(0) =~= Seq::<NodeId>::empty());
    assert(nodes@.map_values(|n: (NodeId, ClipNode)| (n.0, n.1.view())) =~= Seq::<(NodeId, ClipNodeView)>::empty());
    while i < selected.len()
        invariant
            net.wf(),
            v == net@,
            sel == selected@,
            i <= sel.len(),
            nodes@.map_values(|n: (NodeId, ClipNode)| (n.0, n.1.view())) == copied_nodes(v, sel.take(i as int)),
            arcs_in@ == copied_arcs_in(v, sel.take(i as int), sel),
            arcs_out@ == copied_arcs_out(v, sel.take(i as int), sel),
        decreases sel.len() - i,
    {
        let id = selected[i];
        let ghost prev_nodes = nodes@.map_values(|n: (NodeId, ClipNode)| (n.0, n.1.view()));
        assert(sel.take(i + 1).drop_last() =~= sel.take(i as int));
        assert(sel.take(i + 1).last() == id);
        match id {
            NodeId::Place(p) => {
                if net.contains_place(p) {
                    assert(v.places.dom().contains(p.0));
                    let label = crate::text::string_of(&crate::text::chars_of(net.place_label(p)));
                    let node = ClipNode::Place { label, tokens: net.tokens(p) };
                    nodes.push((id, node));
                    assert(nodes@.map_values(|n: (NodeId, ClipNode)| (n.0, n.1.view())) =~= prev_nodes.push((id, node_data(v, id))));
                } else {
                    assert(!v.places.dom().contains(p.0));
                }
            },
            NodeId::Transition(t) => {
                if net.contains_transition(t) {
                    assert(v.transitions.dom().contains(t.0));
                    let label = crate::text::string_of(&crate::text::chars_of(net.transition_label(t)));
                    let node = ClipNode::Transition { label };
                    nodes.push((id, node));
                    assert(nodes@.map_values(|n: (NodeId, ClipNode)| (n.0, n.1.view())) =~= prev_nodes.push((id, node_data(v, id))));
                } else {
                    assert(!v.transitions.dom().contains(t.0));
                }
                let ins = net.inputs(t);
                let ghost start_in = arcs_in@;
                let mut k: usize = 0;
                assert(ins@.take(0) =~= Seq::<(PlaceId, ArcKind)>::empty());
                assert(arcs_in@ =~= start_in + internal_inputs(ins@.take(0), t, sel));
                while k < ins.len()
                    invariant
                        sel == selected@,
                        ins@ == v.inputs(t.0),
                        k <= ins@.len(),
                        arcs_in@ == start_in + internal_inputs(ins@.take(k as int), t, sel),
                    decreases ins@.len() - k,
                {
                    let (p, kind) = ins[k];
                    assert(ins@.take(k + 1).drop_last() =~= ins@.take(k as int));
                    assert(ins@.take(k + 1).last() == (p, kind));
                    let ghost before = arcs_in@;
                    if has_node(selected, NodeId::Place(p)) {
                        arcs_in.push((NodeId::Place(p), NodeId::Transition(t), kind));
                        assert(arcs_in@ =~= start_in + internal_inputs(ins@.take(k + 1), t, sel));
                    }
                    k += 1;
                }
                assert(ins@.take(k as int) =~= ins@);
                let outs = net.outputs(t);
                let ghost start_out = arcs_out@;
                let mut k: usize = 0;
                assert(outs@.take(0) =~= Seq::<(PlaceId, u32)>::empty());
                assert(arcs_out@ =~= start_out + internal_outputs(outs@.take(0), t, sel));
                while k < outs.len()
                    invariant
                        sel == selected@,
                        outs@ == v.outputs(t.0),
                        k <= outs@.len(),
                        arcs_out@ == start_out + internal_outputs(outs@.take(k as int), t, sel),
                    decreases outs@.len() - k,
                {
                    let (p, w) = outs[k];
                    assert(outs@.take(k + 1).drop_last() =~= outs@.take(k as int));
                    assert(outs@.take(k + 1).last() == (p, w));
                    if has_node(selected, NodeId::Place(p)) {
                        arcs_out.push((NodeId::Transition(t), NodeId::Place(p), w));
                        assert(arcs_out@ =~= start_out + internal_outputs(outs@.take(k + 1), t, sel));
                    }
                    k += 1;
                }
                assert(outs@.take(k as int) =~= outs@);
            },
        }
        i += 1;
    }
    assert(sel.take(i as int) =~= sel);
    if nodes.len() == 0 {
        return None;
    }
    Some(Clipboard { nodes, arcs_in, arcs_out })
}

/// The node that old id `old` was last pasted as, if it was.
pub open spec fn pasted_as(mapping: Seq<(NodeId, NodeId)>, old: NodeId) -> Option<NodeId>
    decreases mapping.len(),
{
    if mapping.len() == 0 {
        None
    } else if mapping.last().0 == old {
        Some(mapping.last().1)
    } else {
        pasted_as(mapping.drop_last(), old)
    }
}

/// The new place that old id `old` was last pasted as, if it is a place.
pub open spec fn pasted_place(mapping: Seq<(NodeId, NodeId)>, old: NodeId) -> Option<PlaceId> {
    match pasted_as(mapping, old) {
        Some(NodeId::Place(p)) => Some(p),
        _ => None,
    }
}

/// The new transition that old id `old` was last pasted as, if it is a transition.
pub open spec fn pasted_transition(mapping: Seq<(NodeId, NodeId)>, old: NodeId) -> Option<TransitionId> {
    match pasted_as(mapping, old) {
        Some(NodeId::Transition(t)) => Some(t),
        _ => None,
    }
}

/// The input arcs the pasted transition `nt` gets: each copied arc from a
/// pasted place to (the old id pasted as) `nt`, in order, one per place.
pub open spec fn pasted_inputs(arcs: Seq<(NodeId, NodeId, ArcKind)>, mapping: Seq<(NodeId, NodeId)>, nt: TransitionId) -> Seq<
    (PlaceId, ArcKind),
>
    decreases arcs.len(),
{
    if arcs.len() == 0 {
        Seq::empty()
    } else {
        let r = pasted_inputs(arcs.drop_last(), mapping, nt);
        let a = arcs.last();
        if pasted_transition(mapping, a.1) == Some(nt) && pasted_place(mapping, a.0) is Some && !has_place(
            r,
            pasted_place(mapping, a.0)->0,
        ) {
            r.push((pasted_place(mapping, a.0)->0, a.2))
        } else {
            r
        }
    }
}

/// The output arcs the pasted transition `nt` gets.
pub open spec fn pasted_outputs(arcs: Seq<(NodeId, NodeId, u32)>, mapping: Seq<(NodeId, NodeId)>, nt: TransitionId) -> Seq<
    (PlaceId, u32),
>
    decreases arcs.len(),
{
    if arcs.len() == 0 {
        Seq::empty()
    } else {
        let r = pasted_outputs(arcs.drop_last(), mapping, nt);
        let a = arcs.last();
        if pasted_transition(mapping, a.0) == Some(nt) && pasted_place(mapping, a.1) is Some && !has_place(
            r,
            pasted_place(mapping, a.1)->0,
        ) {
            r.push((pasted_place(mapping, a.1)->0, a.2))
        } else {
            r
        }
    }
}

/// A node that `mapping` pastes something as is one of its entries.
proof fn lemma_pasted_as_entry(mapping: Seq<(NodeId, NodeId)>, old: NodeId)
    ensures
        pasted_as(mapping, old) matches Some(n) ==> exists|a: int| 0 <= a < mapping.len() && (#[trigger] mapping[a]).1 == n,
    decreases mapping.len(),
{
    if mapping.len() > 0 {
        lemma_pasted_as_entry(mapping.drop_last(), old);
        if mapping.last().0 == old {
            assert(mapping[mapping.len() - 1].1 == mapping.last().1);
        } else if pasted_as(mapping.drop_last(), old) is Some {
            let n = pasted_as(mapping.drop_last(), old)->0;
            let a = choose|a: int| 0 <= a < mapping.drop_last().len() && (#[trigger] mapping.drop_last()[a]).1 == n;
            assert(mapping[a] == mapping.drop_last()[a]);
        }
    }
}

/// The node `mapping` pastes old id `old` as, searching from the last entry.
fn find_pasted(mapping: &Vec<(NodeId, NodeId)>, old: NodeId) -> (r: Option<NodeId>)
    ensures
        r == pasted_as(mapping@, old),
{
    let mut i = mapping.len();
    assert(mapping@.take(i as int) =~= mapping@);
    while i > 0
        invariant
            i <= mapping@.len(),
            pasted_as(mapping@.take(i as int), old) == pasted_as(mapping@, old),
        decreases i,
    {
        assert(mapping@.take(i as int).drop_last() =~= mapping@.take(i - 1));
        assert(mapping@.take(i as int).last() == mapping@[i - 1]);
        if mapping[i - 1].0 == old {
            return Some(mapping[i - 1].1);
        }
        i -= 1;
    }
    None
}

/// The new nodes of `mapping` are fresh in `before`, pairwise different, and held by `v`.
pub open spec fn pasted_fresh(v: ModelView, before: ModelView, mapping: Seq<(NodeId, NodeId)>) -> bool {
    &&& forall|i: int, j: int| 0 <= i < j < mapping.len() ==> (#[trigger] mapping[i]).1 != (#[trigger] mapping[j]).1
    &&& forall|i: int| 0 <= i < mapping.len() ==> match (#[trigger] mapping[i]).1 {
        NodeId::Place(p) => !before.places.dom().contains(p.0) && v.places.dom().contains(p.0),
        NodeId::Transition(t) => !before.transitions.dom().contains(t.0) && v.transitions.dom().contains(t.0),
    }
}

/// Pastes `clip` into `net` as new nodes, with the copied arcs between them;
/// returns each old id with the new node it was pasted as, in order.
pub fn paste(net: &mut PetriNet, clip: &Clipboard) -> (mapping: Vec<(NodeId, NodeId)>)
    requires
        old(net).wf(),
        old(net)@.places.dom().len() + clip.nodes@.len() + 2 < 0x1_0000_0000,
        old(net)@.transitions.dom().len() + clip.nodes@.len() + 2 < 0x1_0000_0000,
    ensures
        final(net).wf(),
        mapping@.len() == clip.nodes@.len(),
        pasted_fresh(final(net)@, old(net)@, mapping@),
        final(net)@.places.dom() == old(net)@.places.dom().union(
            Set::new(|k: u64| exists|i: int| 0 <= i < mapping@.len() && (#[trigger] mapping@[i]).1 == NodeId::Place(PlaceId(k))),
        ),
        final(net)@.transitions.dom() == old(net)@.transitions.dom().union(
            Set::new(|k: u64| exists|i: int| 0 <= i < mapping@.len() && (#[trigger] mapping@[i]).1 == NodeId::Transition(TransitionId(k))),
        ),
        forall|k: u64| #[trigger] old(net)@.places.dom().contains(k) ==> final(net)@.places[k] == old(net)@.places[k],
        forall|k: u64| #[trigger] old(net)@.transitions.dom().contains(k) ==> final(net)@.transitions[k] == old(net)@.transitions[k],
        forall|i: int| 0 <= i < mapping@.len() ==> (#[trigger] mapping@[i]).0 == clip.nodes@[i].0 && match clip.nodes@[i].1 {
            ClipNode::Place { label, tokens } => mapping@[i].1 matches NodeId::Place(p) && final(net)@.places[p.0].label@ == label@
                && final(net)@.places[p.0].tokens == tokens,
            ClipNode::Transition { label } => mapping@[i].1 matches NodeId::Transition(t) && final(net)@.transitions[t.0].label@
                == label@ && final(net)@.transitions[t.0].inputs@ == pasted_inputs(clip.arcs_in@, mapping@, t)
                && final(net)@.transitions[t.0].outputs@ == pasted_outputs(clip.arcs_out@, mapping@, t),
        },
{
    let ghost start = net@;
    let mut mapping: Vec<(NodeId, NodeId)> = Vec::new();
    let mut i: usize = 0;
    proof {
        assert(net@.places.dom() =~= start.places.dom().union(Set::new(|k: u64| exists|a: int| 0 <= a < mapping@.len() && (#[trigger] mapping@[a]).1 == NodeId::Place(PlaceId(k)))));
        assert(net@.transitions.dom() =~= start.transitions.dom().union(Set::new(|k: u64| exists|a: int| 0 <= a < mapping@.len() && (#[trigger] mapping@[a]).1 == NodeId::Transition(TransitionId(k)))));
    }
    while i < clip.nodes.len()
        invariant
            net.wf(),
            start.places.dom().finite(),
            start.transitions.dom().finite(),
            start.places.dom().len() + clip.nodes@.len() + 2 < 0x1_0000_0000,
            start.transitions.dom().len() + clip.nodes@.len() + 2 < 0x1_0000_0000,
            i <= clip.nodes@.len(),
            mapping@.len() == i,
            pasted_fresh(net@, start, mapping@),
            net@.places.dom() == start.places.dom().union(
                Set::new(|k: u64| exists|a: int| 0 <= a < mapping@.len() && (#[trigger] mapping@[a]).1 == NodeId::Place(PlaceId(k))),
            ),
            net@.transitions.dom() == start.transitions.dom().union(
                Set::new(|k: u64| exists|a: int| 0 <= a < mapping@.len() && (#[trigger] mapping@[a]).1 == NodeId::Transition(TransitionId(k))),
            ),
            net@.places.dom().len() <= start.places.dom().len() + i,
            net@.transitions.dom().len() <= start.transitions.dom().len() + i,
            forall|k: u64| #[trigger] start.places.dom().contains(k) ==> net@.places[k] == start.places[k],
            forall|k: u64| #[trigger] start.transitions.dom().contains(k) ==> net@.transitions[k] == start.transitions[k],
            forall|a: int| 0 <= a < i ==> (#[trigger] mapping@[a]).0 == clip.nodes@[a].0 && match clip.nodes@[a].1 {
                ClipNode::Place { label, tokens } => mapping@[a].1 matches NodeId::Place(p) && net@.places[p.0].label@ == label@
                    && net@.places[p.0].tokens == tokens,
                ClipNode::Transition { label } => mapping@[a].1 matches NodeId::Transition(t) && net@.transitions[t.0].label@
                    == label@ && net@.transitions[t.0].inputs@.len() == 0 && net@.transitions[t.0].outputs@.len() == 0,
            },
        decreases clip.nodes@.len() - i,
    {
        let ghost before = net@;
        let ghost old_map = mapping@;
        let old_id = clip.nodes[i].0;
        let new_id = match &clip.nodes[i].1 {
            ClipNode::Place { label, tokens } => {
                let p = net.add_place(label.as_str());
                let ghost mid = net@;
                net.set_tokens(p, *tokens);
                proof {
                    assert(net@.places.dom().contains(p.0));
                    assert(mid.places[p.0].label@ == label@);
                }
                NodeId::Place(p)
            },
            ClipNode::Transition { label } => {
                let t = net.add_transition(label.as_str());
                NodeId::Transition(t)
            },
        };
        mapping.push((old_id, new_id));
        proof {
            assert(mapping@[i as int] == (old_id, new_id));
            assert forall|a: int| 0 <= a < i implies mapping@[a] == old_map[a] by {};
            assert forall|a: int, b: int| 0 <= a < b < mapping@.len() implies (#[trigger] mapping@[a]).1 != (#[trigger] mapping@[b]).1 by {
                if b == i {
                    match old_map[a].1 {
                        NodeId::Place(p) => {
                            assert(before.places.dom().contains(p.0));
                        },
                        NodeId::Transition(t) => {
                            assert(before.transitions.dom().contains(t.0));
                        },
                    }
                } else {
                    assert(mapping@[a] == old_map[a] && mapping@[b] == old_map[b]);
                }
            };
            assert forall|a: int| 0 <= a < mapping@.len() implies match (#[trigger] mapping@[a]).1 {
                NodeId::Place(p) => !start.places.dom().contains(p.0) && net@.places.dom().contains(p.0),
                NodeId::Transition(t) => !start.transitions.dom().contains(t.0) && net@.transitions.dom().contains(t.0),
            } by {
                if a < i {
                    assert(mapping@[a] == old_map[a]);
                }
            };
            let pset = Set::new(|k: u64| exists|a: int| 0 <= a < mapping@.len() && (#[trigger] mapping@[a]).1 == NodeId::Place(PlaceId(k)));
            let old_pset = Set::new(|k: u64| exists|a: int| 0 <= a < old_map.len() && (#[trigger] old_map[a]).1 == NodeId::Place(PlaceId(k)));
            let tset = Set::new(|k: u64| exists|a: int| 0 <= a < mapping@.len() && (#[trigger] mapping@[a]).1 == NodeId::Transition(TransitionId(k)));
            let old_tset = Set::new(|k: u64| exists|a: int| 0 <= a < old_map.len() && (#[trigger] old_map[a]).1 == NodeId::Transition(TransitionId(k)));
            assert forall|k: u64| #[trigger] pset.contains(k) <==> (old_pset.contains(k) || new_id == NodeId::Place(PlaceId(k))) by {
                if pset.contains(k) {
                    let a = choose|a: int| 0 <= a < mapping@.len() && (#[trigger] mapping@[a]).1 == NodeId::Place(PlaceId(k));
                    if a < i {
                        assert(old_map[a] == mapping@[a]);
                    }
                }
                if old_pset.contains(k) {
                    let a = choose|a: int| 0 <= a < old_map.len() && (#[trigger] old_map[a]).1 == NodeId::Place(PlaceId(k));
                    assert(mapping@[a] == old_map[a]);
                }
            };
            assert forall|k: u64| #[trigger] tset.contains(k) <==> (old_tset.contains(k) || new_id == NodeId::Transition(TransitionId(k))) by {
                if tset.contains(k) {
                    let a = choose|a: int| 0 <= a < mapping@.len() && (#[trigger] mapping@[a]).1 == NodeId::Transition(TransitionId(k));
                    if a < i {
                        assert(old_map[a] == mapping@[a]);
                    }
                }
                if old_tset.contains(k) {
                    let a = choose|a: int| 0 <= a < old_map.len() && (#[trigger] old_map[a]).1 == NodeId::Transition(TransitionId(k));
                    assert(mapping@[a] == old_map[a]);
                }
            };
            assert(net@.places.dom() =~= start.places.dom().union(pset));
            assert(net@.transitions.dom() =~= start.transitions.dom().union(tset));
            assert forall|a: int| 0 <= a < i + 1 implies (#[trigger] mapping@[a]).0 == clip.nodes@[a].0 && match clip.nodes@[a].1 {
                ClipNode::Place { label, tokens } => mapping@[a].1 matches NodeId::Place(p) && net@.places[p.0].label@ == label@
                    && net@.places[p.0].tokens == tokens,
                ClipNode::Transition { label } => mapping@[a].1 matches NodeId::Transition(t) && net@.transitions[t.0].label@
                    == label@ && net@.transitions[t.0].inputs@.len() == 0 && net@.transitions[t.0].outputs@.len() == 0,
            } by {
                if a < i {
                    assert(mapping@[a] == old_map[a]);
                    match old_map[a].1 {
                        NodeId::Place(p) => {
                            assert(before.places.dom().contains(p.0));
                            assert(net@.places.dom().contains(p.0));
                        },
                        NodeId::Transition(t) => {
                            assert(before.transitions.dom().contains(t.0));
                        },
                    }
                }
            };
            assert forall|k: u64| #[trigger] start.places.dom().contains(k) implies net@.places[k] == start.places[k] by {
                assert(before.places.dom().contains(k));
                assert(net@.places.dom().contains(k));
            };
        }
        i += 1;
    }
    let ghost m = mapping@;
    let ghost after_nodes = net@;
    let mut k: usize = 0;
    proof {
        assert forall|a: int| 0 <= a < m.len() && (#[trigger] m[a]).1 is Transition implies net@.transitions[m[a].1->Transition_0.0].inputs@
            == pasted_inputs(clip.arcs_in@.take(0), m, m[a].1->Transition_0) by {
            match clip.nodes@[a].1 {
                ClipNode::Place { .. } => {},
                ClipNode::Transition { .. } => {},
            }
            assert(net@.transitions[m[a].1->Transition_0.0].inputs@ =~= Seq::<(PlaceId, ArcKind)>::empty());
        };
    }
    while k < clip.arcs_in.len()
        invariant
            net.wf(),
            m == mapping@,
            m.len() == clip.nodes@.len(),
            k <= clip.arcs_in@.len(),
            pasted_fresh(net@, start, m),
            net@.places == after_nodes.places,
            net@.transitions.dom() == after_nodes.transitions.dom(),
            forall|q: u64| #[trigger] start.transitions.dom().contains(q) ==> after_nodes.transitions.dom().contains(q),
            forall|q: u64| #[trigger] start.transitions.dom().contains(q) ==> net@.transitions[q] == after_nodes.transitions[q],
            forall|a: int| 0 <= a < m.len() && (#[trigger] m[a]).1 is Transition ==> {
                let t = m[a].1->Transition_0;
                &&& net@.transitions[t.0].label == after_nodes.transitions[t.0].label
                &&& net@.transitions[t.0].outputs@ == after_nodes.transitions[t.0].outputs@
                &&& net@.transitions[t.0].inputs@ == pasted_inputs(clip.arcs_in@.take(k as int), m, t)
            },
        decreases clip.arcs_in@.len() - k,
    {
        let ghost cur = net@;
        let (from, to, kind) = clip.arcs_in[k];
        assert(clip.arcs_in@.take(k + 1).drop_last() =~= clip.arcs_in@.take(k as int));
        assert(clip.arcs_in@.take(k + 1).last() == (from, to, kind));
        let ef = find_pasted(&mapping, from);
        let et = find_pasted(&mapping, to);
        match (ef, et) {
            (Some(NodeId::Place(np)), Some(NodeId::Transition(nt))) => {
                proof {
                    lemma_pasted_as_entry(m, from);
                    lemma_pasted_as_entry(m, to);
                }
                let res = net.add_arc_place_to_transition(np, nt, kind);
                proof {
                    assert forall|a: int| 0 <= a < m.len() && (#[trigger] m[a]).1 is Transition implies {
                        let t = m[a].1->Transition_0;
                        &&& net@.transitions[t.0].label == after_nodes.transitions[t.0].label
                        &&& net@.transitions[t.0].outputs@ == after_nodes.transitions[t.0].outputs@
                        &&& net@.transitions[t.0].inputs@ == pasted_inputs(clip.arcs_in@.take(k + 1), m, t)
                    } by {
                        let t = m[a].1->Transition_0;
                        assert(cur.transitions.dom().contains(t.0));
                        if t != nt {
                            assert(net@.transitions[t.0] == cur.transitions[t.0]);
                        }
                    };
                    assert forall|q: u64| #[trigger] start.transitions.dom().contains(q) implies net@.transitions[q] == after_nodes.transitions[q] by {
                        let a = choose|a: int| 0 <= a < m.len() && (#[trigger] m[a]).1 == NodeId::Transition(nt);
                        assert(q != nt.0);
                        assert(cur.transitions.dom().contains(q)) by {
                            assert(after_nodes.transitions.dom().contains(q));
                        };
                    };
                }
            },
            _ => {
                proof {
                    assert forall|a: int| 0 <= a < m.len() && (#[trigger] m[a]).1 is Transition implies net@.transitions[m[a].1->Transition_0.0].inputs@
                        == pasted_inputs(clip.arcs_in@.take(k + 1), m, m[a].1->Transition_0) by {};
                }
            },
        }
        k += 1;
    }
    assert(clip.arcs_in@.take(k as int) =~= clip.arcs_in@);
    let ghost after_in = net@;
    let mut k: usize = 0;
    proof {
        assert forall|a: int| 0 <= a < m.len() && (#[trigger] m[a]).1 is Transition implies net@.transitions[m[a].1->Transition_0.0].outputs@
            == pasted_outputs(clip.arcs_out@.take(0), m, m[a].1->Transition_0) by {
            match clip.nodes@[a].1 {
                ClipNode::Place { .. } => {},
                ClipNode::Transition { .. } => {},
            }
            assert(net@.transitions[m[a].1->Transition_0.0].outputs@ =~= Seq::<(PlaceId, u32)>::empty());
        };
    }
    while k < clip.arcs_out.len()
        invariant
            net.wf(),
            m == mapping@,
            m.len() == clip.nodes@.len(),
            k <= clip.arcs_out@.len(),
            pasted_fresh(net@, start, m),
            net@.places == after_nodes.places,
            net@.transitions.dom() == after_nodes.transitions.dom(),
            forall|q: u64| #[trigger] start.transitions.dom().contains(q) ==> after_nodes.transitions.dom().contains(q),
            forall|q: u64| #[trigger] start.transitions.dom().contains(q) ==> net@.transitions[q] == after_nodes.transitions[q],
            forall|a: int| 0 <= a < m.len() && (#[trigger] m[a]).1 is Transition ==> {
                let t = m[a].1->Transition_0;
                &&& net@.transitions[t.0].label == after_nodes.transitions[t.0].label
                &&& net@.transitions[t.0].inputs@ == pasted_inputs(clip.arcs_in@, m, t)
                &&& net@.transitions[t.0].outputs@ == pasted_outputs(clip.arcs_out@.take(k as int), m, t)
            },
        decreases clip.arcs_out@.len() - k,
    {
        let ghost cur = net@;
        let (from, to, w) = clip.arcs_out[k];
        assert(clip.arcs_out@.take(k + 1).drop_last() =~= clip.arcs_out@.take(k as int));
        assert(clip.arcs_out@.take(k + 1).last() == (from, to, w));
        let ef = find_pasted(&mapping, from);
        let et = find_pasted(&mapping, to);
        match (ef, et) {
            (Some(NodeId::Transition(nt)), Some(NodeId::Place(np))) => {
                proof {
                    lemma_pasted_as_entry(m, from);
                    lemma_pasted_as_entry(m, to);
                }
                let res = net.add_arc_transition_to_place(nt, np, w);
                proof {
                    assert forall|a: int| 0 <= a < m.len() && (#[trigger] m[a]).1 is Transition implies {
                        let t = m[a].1->Transition_0;
                        &&& net@.transitions[t.0].label == after_nodes.transitions[t.0].label
                        &&& net@.transitions[t.0].inputs@ == pasted_inputs(clip.arcs_in@, m, t)
                        &&& net@.transitions[t.0].outputs@ == pasted_outputs(clip.arcs_out@.take(k + 1), m, t)
                    } by {
                        let t = m[a].1->Transition_0;
                        assert(cur.transitions.dom().contains(t.0));
                        if t != nt {
                            assert(net@.transitions[t.0] == cur.transitions[t.0]);
                        }
                    };
                    assert forall|q: u64| #[trigger] start.transitions.dom().contains(q) implies net@.transitions[q] == after_nodes.transitions[q] by {
                        let a = choose|a: int| 0 <= a < m.len() && (#[trigger] m[a]).1 == NodeId::Transition(nt);
                        assert(q != nt.0);
                        assert(cur.transitions.dom().contains(q)) by {
                            assert(after_nodes.transitions.dom().contains(q));
                        };
                    };
                }
            },
            _ => {
                proof {
                    assert forall|a: int| 0 <= a < m.len() && (#[trigger] m[a]).1 is Transition implies net@.transitions[m[a].1->Transition_0.0].outputs@
                        == pasted_outputs(clip.arcs_out@.take(k + 1), m, m[a].1->Transition_0) by {};
                }
            },
        }
        k += 1;
    }
    assert(clip.arcs_out@.take(k as int) =~= clip.arcs_out@);
    proof {
        assert forall|a: int| 0 <= a < mapping@.len() implies (#[trigger] mapping@[a]).0 == clip.nodes@[a].0 && match clip.nodes@[a].1 {
            ClipNode::Place { label, tokens } => mapping@[a].1 matches NodeId::Place(p) && net@.places[p.0].label@ == label@
                && net@.places[p.0].tokens == tokens,
            ClipNode::Transition { label } => mapping@[a].1 matches NodeId::Transition(t) && net@.transitions[t.0].label@
                == label@ && net@.transitions[t.0].inputs@ == pasted_inputs(clip.arcs_in@, mapping@, t)
                && net@.transitions[t.0].outputs@ == pasted_outputs(clip.arcs_out@, mapping@, t),
        } by {
            match clip.nodes@[a].1 {
                ClipNode::Place { .. } => {},
                ClipNode::Transition { .. } => {
                    assert(m[a].1 is Transition);
                },
            }
        };
        assert forall|q: u64| #[trigger] start.transitions.dom().contains(q) implies net@.transitions[q] == start.transitions[q] by {};
    }
    mapping
}

} // verus!
