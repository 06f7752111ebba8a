//! The project file: the net as lists (places, then transitions whose arcs
//! name places by their position), and the header that frames the archived
//! bytes of a file.
use vstd::prelude::*;

use crate::analysis::{lemma_place_ids_in_order, lemma_transition_ids_in_order, place_order, position, transition_order};
use crate::model::slots::slot_index;
use crate::model::{has_place, kind_weight, ArcKind, ModelView, PetriNet, PlaceId, TransitionId};
use crate::text::{decimal, parse_usize, parse_usize_spec};

verus! {

/// The kind of an input arc as a project file stores it, its weight apart.
#[derive(Clone, Copy, PartialEq, Eq, Debug, Structural)]
pub enum ProjectArcKind {
    Consume,
    Peek,
    Inhibit,
}

/// The kind tag of `k`.
pub open spec fn tag_of(k: ArcKind) -> ProjectArcKind {
    match k {
        ArcKind::Consume(_) => ProjectArcKind::Consume,
        ArcKind::Peek(_) => ProjectArcKind::Peek,
        ArcKind::Inhibit(_) => ProjectArcKind::Inhibit,
    }
}

/// The arc kind tagged `tag` with weight `w`.
pub open spec fn kind_of(tag: ProjectArcKind, w: u32) -> ArcKind {
    match tag {
        ProjectArcKind::Consume => ArcKind::Consume(w),
        ProjectArcKind::Peek => ArcKind::Peek(w),
        ProjectArcKind::Inhibit => ArcKind::Inhibit(w),
    }
}

impl ProjectArcKind {
    /// The tag and the weight of `kind`.
    pub fn from_kind(kind: ArcKind) -> (r: (Self, u32))
        ensures
            r == (tag_of(kind), kind_weight(kind)),
    {
        match kind {
            ArcKind::Consume(w) => (ProjectArcKind::Consume, w),
            ArcKind::Peek(w) => (ProjectArcKind::Peek, w),
            ArcKind::Inhibit(w) => (ProjectArcKind::Inhibit, w),
        }
    }

    /// The arc kind with this tag and weight `weight`.
    pub fn to_kind(self, weight: u32) -> (r: ArcKind)
        ensures
            r == kind_of(self, weight),
    {
        match self {
            ProjectArcKind::Consume => ArcKind::Consume(weight),
            ProjectArcKind::Peek => ArcKind::Peek(weight),
            ProjectArcKind::Inhibit => ArcKind::Inhibit(weight),
        }
    }
}

/// A place of a project: its label and tokens.
#[derive(Clone, Debug)]
pub struct ProjectPlace {
    pub label: String,
    pub tokens: u32,
}

/// A transition of a project: its label, its input arcs `(place position,
/// kind, weight)` and its output arcs `(place position, weight)`.
#[derive(Clone, Debug)]
pub struct ProjectTransition {
    pub label: String,
    pub inputs: Vec<(u32, ProjectArcKind, u32)>,
    pub outputs: Vec<(u32, u32)>,
}

/// The net of a project.
#[derive(Clone, Debug)]
pub struct ProjectNet {
    pub places: Vec<ProjectPlace>,
    pub transitions: Vec<ProjectTransition>,
}

/// What a project transition holds.
pub struct ProjectTransitionView {
    pub label: Seq<char>,
    pub inputs: Seq<(u32, ProjectArcKind, u32)>,
    pub outputs: Seq<(u32, u32)>,
}

/// What a project net holds.
pub struct ProjectView {
    pub places: Seq<(Seq<char>, u32)>,
    pub transitions: Seq<ProjectTransitionView>,
}

impl ProjectTransition {
    pub open spec fn view(&self) -> ProjectTransitionView {
        ProjectTransitionView { label: self.label@, inputs: self.inputs@, outputs: self.outputs@ }
    }
}

impl ProjectNet {
    pub open spec fn view(&self) -> ProjectView {
        ProjectView {
            places: self.places@.map_values(|p: ProjectPlace| (p.label@, p.tokens)),
            transitions: self.transitions@.map_values(|t: ProjectTransition| t.view()),
        }
    }
}

/// The project of the net `v`: its places and its transitions in slot order,
/// each arc naming its place by the place's position.
pub open spec fn project_of(v: ModelView) -> ProjectView {
    let po = place_order(v);
    ProjectView {
        places: po.map_values(|k: u64| (v.places[k].label@, v.places[k].tokens)),
        transitions: transition_order(v).map_values(
            |t: u64|
                ProjectTransitionView {
                    label: v.transitions[t].label@,
                    inputs: v.transitions[t].inputs@.map_values(
                        |a: (PlaceId, ArcKind)| (position(po, a.0.0) as u32, tag_of(a.1), kind_weight(a.1)),
                    ),
                    outputs: v.transitions[t].outputs@.map_values(|a: (PlaceId, u32)| (position(po, a.0.0) as u32, a.1)),
                },
        ),
    }
}

/// The input arcs of a project transition that a net of `n` places gets: those
/// naming a place that exists and not already named by an earlier arc.
pub open spec fn kept_inputs(items: Seq<(u32, ProjectArcKind, u32)>, n: nat) -> Seq<(u32, ProjectArcKind, u32)>
    decreases items.len(),
{
    if items.len() == 0 {
        items
    } else {
        let r = kept_inputs(items.drop_last(), n);
        let x = items.last();
        if x.0 < n && !(exists|j: int| 0 <= j < r.len() && (#[trigger] r[j]).0 == x.0) {
            r.push(x)
        } else {
            r
        }
    }
}

/// The output arcs of a project transition that a net of `n` places gets.
pub open spec fn kept_outputs(items: Seq<(u32, u32)>, n: nat) -> Seq<(u32, u32)>
    decreases items.len(),
{
    if items.len() == 0 {
        items
    } else {
        let r = kept_outputs(items.drop_last(), n);
        let x = items.last();
        if x.0 < n && !(exists|j: int| 0 <= j < r.len() && (#[trigger] r[j]).0 == x.0) {
            r.push(x)
        } else {
            r
        }
    }
}

/// Arcs naming places by position, on the place keys `pk`.
pub open spec fn keyed_project_inputs(items: Seq<(u32, ProjectArcKind, u32)>, pk: Seq<u64>) -> Seq<(PlaceId, ArcKind)> {
    items.map_values(|x: (u32, ProjectArcKind, u32)| (PlaceId(pk[x.0 as int]), kind_of(x.1, x.2)))
}

/// Arcs naming places by position, on the place keys `pk`.
pub open spec fn keyed_project_outputs(items: Seq<(u32, u32)>, pk: Seq<u64>) -> Seq<(PlaceId, u32)> {
    items.map_values(|x: (u32, u32)| (PlaceId(pk[x.0 as int]), x.1))
}

/// The net `w` holds the project `p`: its places under the keys `pk` and its
/// transitions under the keys `tk`, with their labels, tokens and kept arcs.
pub open spec fn holds_project(w: ModelView, p: ProjectView, pk: Seq<u64>, tk: Seq<u64>) -> bool {
    &&& pk.len() == p.places.len()
    &&& tk.len() == p.transitions.len()
    &&& pk.no_duplicates()
    &&& tk.no_duplicates()
    &&& w.places.dom() == pk.to_set()
    &&& w.transitions.dom() == tk.to_set()
    &&& forall|i: int| 0 <= i < pk.len() ==> (#[trigger] w.places[pk[i]]).label@ == p.places[i].0 && w.places[pk[i]].tokens
        == p.places[i].1
    &&& forall|j: int| 0 <= j < tk.len() ==> {
        let d = #[trigger] w.transitions[tk[j]];
        &&& d.label@ == p.transitions[j].label
        &&& d.inputs@ == keyed_project_inputs(kept_inputs(p.transitions[j].inputs, pk.len()), pk)
        &&& d.outputs@ == keyed_project_outputs(kept_outputs(p.transitions[j].outputs, pk.len()), pk)
    }
}

/// In slot order, the `i`-th key has slot index at least `i`.
proof fn lemma_slot_order_index(s: Seq<u64>, i: int)
    requires
        forall|a: int, b: int| 0 <= a < b < s.len() ==> slot_index(s[a]) < slot_index(s[b]),
        0 <= i < s.len(),
    ensures
        slot_index(s[i]) >= i,
    decreases i,
{
    if i > 0 {
        lemma_slot_order_index(s, i - 1);
    }
}

/// Keys in slot order are at most 2^32, one per slot index.
pub(crate) proof fn lemma_slot_order_len(s: Seq<u64>)
    requires
        forall|a: int, b: int| 0 <= a < b < s.len() ==> slot_index(s[a]) < slot_index(s[b]),
    ensures
        s.len() <= 0x1_0000_0000,
{
    if s.len() > 0 {
        lemma_slot_order_index(s, s.len() - 1);
    }
}

/// Position of `k` among `keys`.
fn position_of(keys: &Vec<PlaceId>, k: PlaceId) -> (r: usize)
    requires
        keys@.contains(k),
    ensures
        r < keys@.len(),
        keys@[r as int] == k,
{
    let mut i: usize = 0;
    while i < keys.len()
        invariant
            i <= keys@.len(),
            keys@.contains(k),
            forall|j: int| 0 <= j < i ==> keys@[j] != k,
        decreases keys@.len() - i,
    {
        if keys[i] == k {
            return i;
        }
        i += 1;
    }
    proof {
        let j = choose|j: int| 0 <= j < keys@.len() && keys@[j] == k;
        assert(keys@[j] != k);
    }
    0
}

/// The project transition of transition `t`.
fn project_transition(net: &PetriNet, t: TransitionId, place_ids: &Vec<PlaceId>) -> (r: ProjectTransition)
    requires
        net.wf(),
        net@.transitions.dom().contains(t.0),
        crate::analysis::place_keys(place_ids@) == place_order(net@),
        place_ids@.len() <= 0x1_0000_0000,
        forall|k: u64| #[trigger] net@.places.dom().contains(k) <==> place_ids@.contains(PlaceId(k)),
        forall|i: int| 0 <= i < place_ids@.len() ==> position(place_order(net@), #[trigger] place_order(net@)[i]) == i,
    ensures
        r.view().label == net@.transitions[t.0].label@,
        r.view().inputs == net@.transitions[t.0].inputs@.map_values(
            |a: (PlaceId, ArcKind)| (position(place_order(net@), a.0.0) as u32, tag_of(a.1), kind_weight(a.1)),
        ),
        r.view().outputs == net@.transitions[t.0].outputs@.map_values(
            |a: (PlaceId, u32)| (position(place_order(net@), a.0.0) as u32, a.1),
        ),
{
    let ghost v = net@;
    let ghost po = place_order(v);
    let ins = net.inputs(t);
    let ghost want_in = v.transitions[t.0].inputs@.map_values(
        |a: (PlaceId, ArcKind)| (position(po, a.0.0) as u32, tag_of(a.1), kind_weight(a.1)),
    );
    let mut inputs: Vec<(u32, ProjectArcKind, u32)> = Vec::new();
    let mut i: usize = 0;
    while i < ins.len()
        invariant
            net.wf(),
            v == net@,
            po == place_order(v),
            v.transitions.dom().contains(t.0),
            ins@ == v.inputs(t.0),
            crate::analysis::place_keys(place_ids@) == po,
            place_ids@.len() <= 0x1_0000_0000,
            forall|k: u64| #[trigger] v.places.dom().contains(k) <==> place_ids@.contains(PlaceId(k)),
            forall|j: int| 0 <= j < place_ids@.len() ==> position(po, #[trigger] po[j]) == j,
            want_in == v.transitions[t.0].inputs@.map_values(
                |a: (PlaceId, ArcKind)| (position(po, a.0.0) as u32, tag_of(a.1), kind_weight(a.1)),
            ),
            i <= ins@.len(),
            inputs@ == want_in.take(i as int),
        decreases ins@.len() - i,
    {
        let (p, kind) = ins[i];
        assert(v.places.dom().contains(ins@[i as int].0.0));
        let x = position_of(place_ids, p);
        assert(po[x as int] == p.0);
        let (tag, w) = ProjectArcKind::from_kind(kind);
        inputs.push((x as u32, tag, w));
        i += 1;
        assert(inputs@ =~= want_in.take(i as int));
    }
    assert(want_in.take(i as int) =~= want_in);
    let outs = net.outputs(t);
    let ghost want_out = v.transitions[t.0].outputs@.map_values(|a: (PlaceId, u32)| (position(po, a.0.0) as u32, a.1));
    let mut outputs: Vec<(u32, u32)> = Vec::new();
    let mut i: usize = 0;
    while i < outs.len()
        invariant
            net.wf(),
            v == net@,
            po == place_order(v),
            v.transitions.dom().contains(t.0),
            outs@ == v.outputs(t.0),
            crate::analysis::place_keys(place_ids@) == po,
            place_ids@.len() <= 0x1_0000_0000,
            forall|k: u64| #[trigger] v.places.dom().contains(k) <==> place_ids@.contains(PlaceId(k)),
            forall|j: int| 0 <= j < place_ids@.len() ==> position(po, #[trigger] po[j]) == j,
            want_out == v.transitions[t.0].outputs@.map_values(|a: (PlaceId, u32)| (position(po, a.0.0) as u32, a.1)),
            i <= outs@.len(),
            outputs@ == want_out.take(i as int),
        decreases outs@.len() - i,
    {
        let (p, w) = outs[i];
        assert(v.places.dom().contains(outs@[i as int].0.0));
        let x = position_of(place_ids, p);
        assert(po[x as int] == p.0);
        outputs.push((x as u32, w));
        i += 1;
        assert(outputs@ =~= want_out.take(i as int));
    }
    assert(want_out.take(i as int) =~= want_out);
    let label = crate::text::string_of(&crate::text::chars_of(net.transition_label(t)));
    ProjectTransition { label, inputs, outputs }
}

/// The project of `net`: its places and transitions in slot order, each arc
/// naming its place by the place's position.
pub fn to_project(net: &PetriNet) -> (r: ProjectNet)
    requires
        net.wf(),
    ensures
        r.view() == project_of(net@),
        crate::analysis::in_slot_order(net@.places.dom(), place_order(net@)),
        crate::analysis::in_slot_order(net@.transitions.dom(), transition_order(net@)),
{
    let ghost v = net@;
    let place_ids = net.place_ids();
    proof {
        lemma_place_ids_in_order(v, place_ids@);
        lemma_slot_order_len(place_order(v));
    }
    let ghost po = place_order(v);
    let ghost want_places = po.map_values(|k: u64| (v.places[k].label@, v.places[k].tokens));
    let mut places: Vec<ProjectPlace> = Vec::new();
    let mut i: usize = 0;
    while i < place_ids.len()
        invariant
            net.wf(),
            v == net@,
            po == place_order(v),
            crate::analysis::place_keys(place_ids@) == po,
            forall|k: u64| #[trigger] v.places.dom().contains(k) <==> place_ids@.contains(PlaceId(k)),
            want_places == po.map_values(|k: u64| (v.places[k].label@, v.places[k].tokens)),
            i <= place_ids@.len(),
            places@.map_values(|p: ProjectPlace| (p.label@, p.tokens)) == want_places.take(i as int),
        decreases place_ids@.len() - i,
    {
        let p = place_ids[i];
        assert(po[i as int] == p.0);
        assert(v.places.dom().contains(p.0)) by {
            assert(place_ids@.contains(p));
        };
        let label = crate::text::string_of(&crate::text::chars_of(net.place_label(p)));
        let ghost before = places@.map_values(|p: ProjectPlace| (p.label@, p.tokens));
        places.push(ProjectPlace { label, tokens: net.tokens(p) });
        i += 1;
        assert(places@.map_values(|p: ProjectPlace| (p.label@, p.tokens)) =~= before.push(want_places[i - 1]));
        assert(want_places.take(i as int) =~= want_places.take(i - 1).push(want_places[i - 1]));
    }
    assert(want_places.take(i as int) =~= want_places);
    let transition_ids = net.transition_ids();
    proof {
        lemma_transition_ids_in_order(v, transition_ids@);
    }
    let ghost to = transition_order(v);
    let ghost want = project_of(v).transitions;
    let mut transitions: Vec<ProjectTransition> = Vec::new();
    let mut j: usize = 0;
    while j < transition_ids.len()
        invariant
            net.wf(),
            v == net@,
            po == place_order(v),
            to == transition_order(v),
            want == project_of(v).transitions,
            want.len() == transition_ids@.len(),
            crate::analysis::place_keys(place_ids@) == po,
            place_ids@.len() <= 0x1_0000_0000,
            crate::analysis::transition_keys(transition_ids@) == to,
            forall|k: u64| #[trigger] v.places.dom().contains(k) <==> place_ids@.contains(PlaceId(k)),
            forall|k: u64| #[trigger] v.transitions.dom().contains(k) <==> transition_ids@.contains(TransitionId(k)),
            forall|a: int| 0 <= a < place_ids@.len() ==> position(po, #[trigger] po[a]) == a,
            forall|a: int| 0 <= a < transition_ids@.len() ==> position(to, #[trigger] to[a]) == a,
            j <= transition_ids@.len(),
            transitions@.map_values(|t: ProjectTransition| t.view()) == want.take(j as int),
        decreases transition_ids@.len() - j,
    {
        let t = transition_ids[j];
        assert(to[j as int] == t.0);
        assert(v.transitions.dom().contains(t.0)) by {
            assert(transition_ids@.contains(t));
        };
        let pt = project_transition(net, t, &place_ids);
        assert(pt.view() == want[j as int]);
        let ghost before = transitions@.map_values(|t: ProjectTransition| t.view());
        transitions.push(pt);
        j += 1;
        assert(transitions@.map_values(|t: ProjectTransition| t.view()) =~= before.push(want[j - 1]));
        assert(want.take(j as int) =~= want.take(j - 1).push(want[j - 1]));
    }
    assert(want.take(j as int) =~= want);
    let r = ProjectNet { places, transitions };
    assert(r.view().places =~= project_of(v).places);
    assert(r.view().transitions =~= project_of(v).transitions);
    r
}

/// Every arc kept names an existing place.
proof fn lemma_kept_inputs_in_range(items: Seq<(u32, ProjectArcKind, u32)>, n: nat)
    ensures
        forall|j: int| 0 <= j < kept_inputs(items, n).len() ==> (#[trigger] kept_inputs(items, n)[j]).0 < n,
    decreases items.len(),
{
    if items.len() > 0 {
        lemma_kept_inputs_in_range(items.drop_last(), n);
        let r = kept_inputs(items.drop_last(), n);
        assert forall|j: int| 0 <= j < kept_inputs(items, n).len() implies (#[trigger] kept_inputs(items, n)[j]).0 < n by {
            if j < r.len() {
                assert(kept_inputs(items, n)[j] == r[j]);
            }
        };
    }
}

/// Every arc kept names an existing place.
proof fn lemma_kept_outputs_in_range(items: Seq<(u32, u32)>, n: nat)
    ensures
        forall|j: int| 0 <= j < kept_outputs(items, n).len() ==> (#[trigger] kept_outputs(items, n)[j]).0 < n,
    decreases items.len(),
{
    if items.len() > 0 {
        lemma_kept_outputs_in_range(items.drop_last(), n);
        let r = kept_outputs(items.drop_last(), n);
        assert forall|j: int| 0 <= j < kept_outputs(items, n).len() implies (#[trigger] kept_outputs(items, n)[j]).0 < n by {
            if j < r.len() {
                assert(kept_outputs(items, n)[j] == r[j]);
            }
        };
    }
}

/// On arcs keyed by distinct keys, the place at position `x` has an arc
/// exactly when some arc names position `x`.
proof fn lemma_keyed_position<K>(idx: Seq<u32>, pk: Seq<u64>, x: u32, keyed: Seq<(PlaceId, K)>)
    requires
        pk.no_duplicates(),
        x < pk.len(),
        forall|j: int| 0 <= j < idx.len() ==> (#[trigger] idx[j]) < pk.len(),
        keyed.len() == idx.len(),
        forall|j: int| 0 <= j < idx.len() ==> (#[trigger] keyed[j]).0 == PlaceId(pk[idx[j] as int]),
    ensures
        has_place(keyed, PlaceId(pk[x as int])) == (exists|j: int| 0 <= j < idx.len() && #[trigger] idx[j] == x),
{
    if exists|j: int| 0 <= j < idx.len() && #[trigger] idx[j] == x {
        let j = choose|j: int| 0 <= j < idx.len() && #[trigger] idx[j] == x;
        assert(keyed[j].0 == PlaceId(pk[x as int]));
    }
    if has_place(keyed, PlaceId(pk[x as int])) {
        let j = choose|j: int| 0 <= j < keyed.len() && (#[trigger] keyed[j]).0 == PlaceId(pk[x as int]);
        assert(pk[idx[j] as int] == pk[x as int]);
        assert(idx[j] == x);
    }
}

/// The keys of a list of place ids.
pub open spec fn place_id_keys(v: Seq<PlaceId>) -> Seq<u64> {
    v.map_values(|p: PlaceId| p.0)
}

/// The keys of a list of transition ids.
pub open spec fn transition_id_keys(v: Seq<TransitionId>) -> Seq<u64> {
    v.map_values(|t: TransitionId| t.0)
}

/// Adds a transition with the arcs of `pt` to `net`, the places of the
/// project standing under the keys `keys`.
fn add_project_transition(net: &mut PetriNet, pt: &ProjectTransition, keys: &Vec<PlaceId>) -> (tid: TransitionId)
    requires
        old(net).wf(),
        old(net)@.transitions.dom().len() + 2 < 0x1_0000_0000,
        place_id_keys(keys@).no_duplicates(),
        forall|i: int| 0 <= i < keys@.len() ==> old(net)@.places.dom().contains((#[trigger] keys@[i]).0),
    ensures
        final(net).wf(),
        final(net)@.places == old(net)@.places,
        !old(net)@.transitions.dom().contains(tid.0),
        final(net)@.transitions.dom() == old(net)@.transitions.dom().insert(tid.0),
        forall|k: u64| k != tid.0 && old(net)@.transitions.dom().contains(k) ==> #[trigger] final(net)@.transitions[k]
            == old(net)@.transitions[k],
        final(net)@.transitions[tid.0].label@ == pt.label@,
        final(net)@.transitions[tid.0].inputs@ == keyed_project_inputs(kept_inputs(pt.inputs@, keys@.len()), place_id_keys(keys@)),
        final(net)@.transitions[tid.0].outputs@ == keyed_project_outputs(kept_outputs(pt.outputs@, keys@.len()), place_id_keys(keys@)),
{
    let ghost pk = place_id_keys(keys@);
    let ghost n = keys@.len();
    let ghost before = net@;
    let tid = net.add_transition(pt.label.as_str());
    let mut i: usize = 0;
    proof {
        assert(pt.inputs@.take(0) =~= Seq::<(u32, ProjectArcKind, u32)>::empty());
        assert(keyed_project_inputs(Seq::empty(), pk) =~= net@.transitions[tid.0].inputs@);
    }
    while i < pt.inputs.len()
        invariant
            i <= pt.inputs@.len(),
            pk == place_id_keys(keys@),
            pk.no_duplicates(),
            n == keys@.len(),
            pk.len() == n,
            forall|a: int| 0 <= a < keys@.len() ==> net@.places.dom().contains((#[trigger] keys@[a]).0),
            net.wf(),
            net@.places == before.places,
            net@.transitions.dom() == before.transitions.dom().insert(tid.0),
            forall|q: u64| q != tid.0 && before.transitions.dom().contains(q) ==> #[trigger] net@.transitions[q] == before.transitions[q],
            net@.transitions[tid.0].label@ == pt.label@,
            net@.transitions[tid.0].inputs@ == keyed_project_inputs(kept_inputs(pt.inputs@.take(i as int), n), pk),
            net@.transitions[tid.0].outputs@.len() == 0,
        decreases pt.inputs@.len() - i,
    {
        let ghost cur = net@;
        let ghost r = kept_inputs(pt.inputs@.take(i as int), n);
        let (x, tag, w) = pt.inputs[i];
        assert(pt.inputs@.take(i + 1).drop_last() =~= pt.inputs@.take(i as int));
        assert(pt.inputs@.take(i + 1).last() == (x, tag, w));
        if (x as usize) < keys.len() {
            let p = keys[x as usize];
            proof {
                lemma_kept_inputs_in_range(pt.inputs@.take(i as int), n);
                let keyed = cur.transitions[tid.0].inputs@;
                let idx = r.map_values(|y: (u32, ProjectArcKind, u32)| y.0);
                assert forall|j: int| 0 <= j < idx.len() implies (#[trigger] keyed[j]).0 == PlaceId(pk[idx[j] as int]) by {
                    assert(keyed[j] == (PlaceId(pk[r[j].0 as int]), kind_of(r[j].1, r[j].2)));
                };
                assert forall|j: int| 0 <= j < idx.len() implies (#[trigger] idx[j]) < pk.len() by {
                    assert(idx[j] == r[j].0);
                };
                lemma_keyed_position(idx, pk, x, keyed);
                assert(p == PlaceId(pk[x as int]));
                assert((exists|j: int| 0 <= j < idx.len() && #[trigger] idx[j] == x) == (exists|j: int| 0 <= j < r.len() && (#[trigger] r[j]).0 == x)) by {
                    if exists|j: int| 0 <= j < r.len() && (#[trigger] r[j]).0 == x {
                        let j = choose|j: int| 0 <= j < r.len() && (#[trigger] r[j]).0 == x;
                        assert(idx[j] == x);
                    }
                };
            }
            let res = net.add_arc_place_to_transition(p, tid, tag.to_kind(w));
            proof {
                if res is Ok {
                    assert(keyed_project_inputs(r.push((x, tag, w)), pk) =~= keyed_project_inputs(r, pk).push((p, kind_of(tag, w))));
                }
                assert forall|q: u64| q != tid.0 && before.transitions.dom().contains(q) implies #[trigger] net@.transitions[q]
                    == before.transitions[q] by {
                    assert(net@.transitions.dom().contains(q));
                    assert(cur.transitions[q] == before.transitions[q]);
                };
            }
        }
        i += 1;
    }
    assert(pt.inputs@.take(i as int) =~= pt.inputs@);
    let ghost ins = net@.transitions[tid.0].inputs@;
    let mut i: usize = 0;
    proof {
        assert(pt.outputs@.take(0) =~= Seq::<(u32, u32)>::empty());
        assert(keyed_project_outputs(Seq::empty(), pk) =~= net@.transitions[tid.0].outputs@);
    }
    while i < pt.outputs.len()
        invariant
            i <= pt.outputs@.len(),
            pk == place_id_keys(keys@),
            pk.no_duplicates(),
            n == keys@.len(),
            pk.len() == n,
            forall|a: int| 0 <= a < keys@.len() ==> net@.places.dom().contains((#[trigger] keys@[a]).0),
            net.wf(),
            net@.places == before.places,
            net@.transitions.dom() == before.transitions.dom().insert(tid.0),
            forall|q: u64| q != tid.0 && before.transitions.dom().contains(q) ==> #[trigger] net@.transitions[q] == before.transitions[q],
            net@.transitions[tid.0].label@ == pt.label@,
            net@.transitions[tid.0].inputs@ == ins,
            ins == keyed_project_inputs(kept_inputs(pt.inputs@, n), pk),
            net@.transitions[tid.0].outputs@ == keyed_project_outputs(kept_outputs(pt.outputs@.take(i as int), n), pk),
        decreases pt.outputs@.len() - i,
    {
        let ghost cur = net@;
        let ghost r = kept_outputs(pt.outputs@.take(i as int), n);
        let (x, w) = pt.outputs[i];
        assert(pt.outputs@.take(i + 1).drop_last() =~= pt.outputs@.take(i as int));
        assert(pt.outputs@.take(i + 1).last() == (x, w));
        if (x as usize) < keys.len() {
            let p = keys[x as usize];
            proof {
                lemma_kept_outputs_in_range(pt.outputs@.take(i as int), n);
                let keyed = cur.transitions[tid.0].outputs@;
                let idx = r.map_values(|y: (u32, u32)| y.0);
                assert forall|j: int| 0 <= j < idx.len() implies (#[trigger] keyed[j]).0 == PlaceId(pk[idx[j] as int]) by {
                    assert(keyed[j] == (PlaceId(pk[r[j].0 as int]), r[j].1));
                };
                assert forall|j: int| 0 <= j < idx.len() implies (#[trigger] idx[j]) < pk.len() by {
                    assert(idx[j] == r[j].0);
                };
                lemma_keyed_position(idx, pk, x, keyed);
                assert(p == PlaceId(pk[x as int]));
                assert((exists|j: int| 0 <= j < idx.len() && #[trigger] idx[j] == x) == (exists|j: int| 0 <= j < r.len() && (#[trigger] r[j]).0 == x)) by {
                    if exists|j: int| 0 <= j < r.len() && (#[trigger] r[j]).0 == x {
                        let j = choose|j: int| 0 <= j < r.len() && (#[trigger] r[j]).0 == x;
                        assert(idx[j] == x);
                    }
                };
            }
            let res = net.add_arc_transition_to_place(tid, p, w);
            proof {
                if res is Ok {
                    assert(keyed_project_outputs(r.push((x, w)), pk) =~= keyed_project_outputs(r, pk).push((p, w)));
                }
                assert forall|q: u64| q != tid.0 && before.transitions.dom().contains(q) implies #[trigger] net@.transitions[q]
                    == before.transitions[q] by {
                    assert(net@.transitions.dom().contains(q));
                    assert(cur.transitions[q] == before.transitions[q]);
                };
            }
        }
        i += 1;
    }
    assert(pt.outputs@.take(i as int) =~= pt.outputs@);
    tid
}

/// What a sequence with one more element contains.
proof fn lemma_push_to_set(s: Seq<u64>, x: u64)
    ensures
        s.push(x).to_set() == s.to_set().insert(x),
{
    assert forall|y: u64| #[trigger] s.push(x).to_set().contains(y) <==> s.to_set().insert(x).contains(y) by {
        if s.contains(y) {
            let j = choose|j: int| 0 <= j < s.len() && s[j] == y;
            assert(s.push(x)[j] == y);
        }
        if y == x {
            assert(s.push(x)[s.len() as int] == y);
        }
        if s.push(x).contains(y) {
            let j = choose|j: int| 0 <= j < s.push(x).len() && s.push(x)[j] == y;
            if j < s.len() {
                assert(s[j] == y);
            }
        }
    };
    assert(s.push(x).to_set() =~= s.to_set().insert(x));
}

/// The net a project describes, built fresh, with the keys its places and
/// its transitions got, in project order. An arc naming a place the project
/// does not have, or one already named by an earlier arc of the same
/// transition and direction, is left out.
pub fn from_project(p: &ProjectNet) -> (r: (PetriNet, Vec<PlaceId>, Vec<TransitionId>))
    requires
        p.places@.len() + 2 < 0x1_0000_0000,
        p.transitions@.len() + 2 < 0x1_0000_0000,
    ensures
        r.0.wf(),
        holds_project(r.0@, p.view(), place_id_keys(r.1@), transition_id_keys(r.2@)),
{
    let ghost pv = p.view();
    let mut net = PetriNet::new();
    let mut keys: Vec<PlaceId> = Vec::new();
    let mut i: usize = 0;
    proof {
        assert(place_id_keys(keys@).to_set() =~= net@.places.dom());
    }
    while i < p.places.len()
        invariant
            pv == p.view(),
            p.places@.len() + 2 < 0x1_0000_0000,
            i <= p.places@.len(),
            net.wf(),
            net@.transitions.dom().len() == 0,
            keys@.len() == i,
            place_id_keys(keys@).no_duplicates(),
            net@.places.dom() == place_id_keys(keys@).to_set(),
            forall|a: int| 0 <= a < i ==> (#[trigger] net@.places[keys@[a].0]).label@ == pv.places[a].0
                && net@.places[keys@[a].0].tokens == pv.places[a].1,
        decreases p.places@.len() - i,
    {
        let ghost before = net@;
        let ghost old_keys = place_id_keys(keys@);
        proof {
            old_keys.unique_seq_to_set();
        }
        let key = net.add_place(p.places[i].label.as_str());
        let ghost mid = net@;
        net.set_tokens(key, p.places[i].tokens);
        keys.push(key);
        proof {
            assert(place_id_keys(keys@) =~= old_keys.push(key.0));
            lemma_push_to_set(old_keys, key.0);
            assert(!old_keys.contains(key.0));
            assert(pv.places[i as int] == (p.places@[i as int].label@, p.places@[i as int].tokens));
            assert forall|a: int| 0 <= a < i + 1 implies (#[trigger] net@.places[keys@[a].0]).label@ == pv.places[a].0
                && net@.places[keys@[a].0].tokens == pv.places[a].1 by {
                if a < i {
                    assert(old_keys[a] == keys@[a].0);
                    assert(old_keys.contains(old_keys[a]));
                    assert(before.places.dom().contains(keys@[a].0));
                    assert(keys@[a].0 != key.0);
                    assert(mid.places[keys@[a].0] == before.places[keys@[a].0]);
                    assert(net@.places.dom().contains(keys@[a].0));
                } else {
                    assert(keys@[a] == key);
                    assert(net@.places.dom().contains(key.0));
                    assert(mid.places[key.0].label@ == p.places@[i as int].label@);
                }
            };
        }
        i += 1;
    }
    let ghost pk = place_id_keys(keys@);
    let mut tkeys: Vec<TransitionId> = Vec::new();
    let mut j: usize = 0;
    proof {
        assert(transition_id_keys(tkeys@).to_set() =~= net@.transitions.dom());
        assert forall|a: int| 0 <= a < keys@.len() implies net@.places.dom().contains((#[trigger] keys@[a]).0) by {
            assert(pk[a] == keys@[a].0);
            assert(pk.contains(pk[a]));
        };
    }
    while j < p.transitions.len()
        invariant
            pv == p.view(),
            pk == place_id_keys(keys@),
            pk.len() == pv.places.len(),
            pk.no_duplicates(),
            p.transitions@.len() + 2 < 0x1_0000_0000,
            j <= p.transitions@.len(),
            net.wf(),
            net@.places.dom() == pk.to_set(),
            forall|a: int| 0 <= a < pk.len() ==> (#[trigger] net@.places[pk[a]]).label@ == pv.places[a].0 && net@.places[pk[a]].tokens
                == pv.places[a].1,
            forall|a: int| 0 <= a < keys@.len() ==> net@.places.dom().contains((#[trigger] keys@[a]).0),
            tkeys@.len() == j,
            transition_id_keys(tkeys@).no_duplicates(),
            net@.transitions.dom() == transition_id_keys(tkeys@).to_set(),
            forall|b: int| 0 <= b < j ==> {
                let d = #[trigger] net@.transitions[tkeys@[b].0];
                &&& d.label@ == pv.transitions[b].label
                &&& d.inputs@ == keyed_project_inputs(kept_inputs(pv.transitions[b].inputs, pk.len()), pk)
                &&& d.outputs@ == keyed_project_outputs(kept_outputs(pv.transitions[b].outputs, pk.len()), pk)
            },
        decreases p.transitions@.len() - j,
    {
        let ghost before = net@;
        let ghost old_tk = transition_id_keys(tkeys@);
        proof {
            old_tk.unique_seq_to_set();
            assert(forall|a: int| 0 <= a < pk.len() ==> (#[trigger] keys@[a]).0 == pk[a]);
        }
        let tid = add_project_transition(&mut net, &p.transitions[j], &keys);
        tkeys.push(tid);
        proof {
            assert(transition_id_keys(tkeys@) =~= old_tk.push(tid.0));
            lemma_push_to_set(old_tk, tid.0);
            assert(!old_tk.contains(tid.0));
            assert(pv.transitions[j as int] == p.transitions@[j as int].view());
            assert forall|a: int| 0 <= a < pk.len() implies (#[trigger] net@.places[pk[a]]).label@ == pv.places[a].0
                && net@.places[pk[a]].tokens == pv.places[a].1 by {};
            assert forall|b: int| 0 <= b < j + 1 implies {
                let d = #[trigger] net@.transitions[tkeys@[b].0];
                &&& d.label@ == pv.transitions[b].label
                &&& d.inputs@ == keyed_project_inputs(kept_inputs(pv.transitions[b].inputs, pk.len()), pk)
                &&& d.outputs@ == keyed_project_outputs(kept_outputs(pv.transitions[b].outputs, pk.len()), pk)
            } by {
                if b < j {
                    assert(old_tk[b] == tkeys@[b].0);
                    assert(old_tk.contains(old_tk[b]));
                    assert(before.transitions.dom().contains(tkeys@[b].0));
                    assert(tkeys@[b].0 != tid.0);
                }
            };
        }
        j += 1;
    }
    proof {
        let tk = transition_id_keys(tkeys@);
        assert forall|b: int| 0 <= b < tk.len() implies {
            let d = #[trigger] net@.transitions[tk[b]];
            &&& d.label@ == pv.transitions[b].label
            &&& d.inputs@ == keyed_project_inputs(kept_inputs(pv.transitions[b].inputs, pk.len()), pk)
            &&& d.outputs@ == keyed_project_outputs(kept_outputs(pv.transitions[b].outputs, pk.len()), pk)
        } by {
            assert(tk[b] == tkeys@[b].0);
        };
    }
    (net, keys, tkeys)
}

/// `w` is `v` with each place key `place_order(v)[i]` renamed to `pk[i]` and
/// each transition key `transition_order(v)[j]` renamed to `tk[j]`: the same
/// labels, tokens and arcs.
pub open spec fn renamed(w: ModelView, v: ModelView, pk: Seq<u64>, tk: Seq<u64>) -> bool {
    let po = place_order(v);
    let to = transition_order(v);
    &&& pk.len() == po.len()
    &&& tk.len() == to.len()
    &&& pk.no_duplicates()
    &&& tk.no_duplicates()
    &&& w.places.dom() == pk.to_set()
    &&& w.transitions.dom() == tk.to_set()
    &&& forall|i: int| 0 <= i < pk.len() ==> (#[trigger] w.places[pk[i]]).label@ == v.places[po[i]].label@ && w.places[pk[i]].tokens
        == v.places[po[i]].tokens
    &&& forall|j: int| 0 <= j < tk.len() ==> {
        let d = #[trigger] w.transitions[tk[j]];
        &&& d.label@ == v.transitions[to[j]].label@
        &&& d.inputs@ == v.transitions[to[j]].inputs@.map_values(|a: (PlaceId, ArcKind)| (PlaceId(pk[position(po, a.0.0)]), a.1))
        &&& d.outputs@ == v.transitions[to[j]].outputs@.map_values(|a: (PlaceId, u32)| (PlaceId(pk[position(po, a.0.0)]), a.1))
    }
}

/// Arcs naming distinct existing places are all kept.
proof fn lemma_kept_inputs_all(items: Seq<(u32, ProjectArcKind, u32)>, n: nat)
    requires
        forall|j: int| 0 <= j < items.len() ==> (#[trigger] items[j]).0 < n,
        forall|a: int, b: int| 0 <= a < b < items.len() ==> (#[trigger] items[a]).0 != (#[trigger] items[b]).0,
    ensures
        kept_inputs(items, n) == items,
    decreases items.len(),
{
    if items.len() > 0 {
        let d = items.drop_last();
        assert forall|a: int, b: int| 0 <= a < b < d.len() implies (#[trigger] d[a]).0 != (#[trigger] d[b]).0 by {
            assert(d[a] == items[a] && d[b] == items[b]);
        };
        assert forall|j: int| 0 <= j < d.len() implies (#[trigger] d[j]).0 < n by {
            assert(d[j] == items[j]);
        };
        lemma_kept_inputs_all(d, n);
        assert(items.last() == items[items.len() - 1]);
        assert(!(exists|j: int| 0 <= j < d.len() && (#[trigger] d[j]).0 == items.last().0)) by {
            if exists|j: int| 0 <= j < d.len() && (#[trigger] d[j]).0 == items.last().0 {
                let j = choose|j: int| 0 <= j < d.len() && (#[trigger] d[j]).0 == items.last().0;
                assert(items[j].0 != items[items.len() - 1].0);
            }
        };
        assert(d.push(items.last()) =~= items);
    }
}

/// Arcs naming distinct existing places are all kept.
proof fn lemma_kept_outputs_all(items: Seq<(u32, u32)>, n: nat)
    requires
        forall|j: int| 0 <= j < items.len() ==> (#[trigger] items[j]).0 < n,
        forall|a: int, b: int| 0 <= a < b < items.len() ==> (#[trigger] items[a]).0 != (#[trigger] items[b]).0,
    ensures
        kept_outputs(items, n) == items,
    decreases items.len(),
{
    if items.len() > 0 {
        let d = items.drop_last();
        assert forall|a: int, b: int| 0 <= a < b < d.len() implies (#[trigger] d[a]).0 != (#[trigger] d[b]).0 by {
            assert(d[a] == items[a] && d[b] == items[b]);
        };
        assert forall|j: int| 0 <= j < d.len() implies (#[trigger] d[j]).0 < n by {
            assert(d[j] == items[j]);
        };
        lemma_kept_outputs_all(d, n);
        assert(!(exists|j: int| 0 <= j < d.len() && (#[trigger] d[j]).0 == items.last().0)) by {
            if exists|j: int| 0 <= j < d.len() && (#[trigger] d[j]).0 == items.last().0 {
                let j = choose|j: int| 0 <= j < d.len() && (#[trigger] d[j]).0 == items.last().0;
                assert(items[j].0 != items[items.len() - 1].0);
            }
        };
        assert(d.push(items.last()) =~= items);
    }
}

/// In slot order, the position of each listed key is where it stands.
pub(crate) proof fn lemma_positions(dom: Set<u64>, po: Seq<u64>)
    requires
        crate::analysis::in_slot_order(dom, po),
    ensures
        po.len() <= 0x1_0000_0000,
        forall|k: u64| #[trigger] dom.contains(k) ==> 0 <= position(po, k) < po.len() && po[position(po, k)] == k,
        forall|i: int| 0 <= i < po.len() ==> position(po, #[trigger] po[i]) == i,
{
    lemma_slot_order_len(po);
    assert forall|k: u64| #[trigger] dom.contains(k) implies 0 <= position(po, k) < po.len() && po[position(po, k)] == k by {
        assert(po.contains(k));
    };
    assert forall|i: int| 0 <= i < po.len() implies position(po, #[trigger] po[i]) == i by {
        let c = position(po, po[i]);
        assert(po.contains(po[i]));
        if c != i {
            if c < i {
                assert(slot_index(po[c]) < slot_index(po[i]));
            } else {
                assert(slot_index(po[i]) < slot_index(po[c]));
            }
        }
    };
}

/// Loading the project saved from a net gives the same net: every place
/// with its label and tokens, every transition with its label and arcs, under
/// the keys the load handed out.
pub proof fn lemma_project_round_trip(v: ModelView, w: ModelView, pk: Seq<u64>, tk: Seq<u64>)
    requires
        v.wf(),
        crate::analysis::in_slot_order(v.places.dom(), place_order(v)),
        crate::analysis::in_slot_order(v.transitions.dom(), transition_order(v)),
        holds_project(w, project_of(v), pk, tk),
    ensures
        renamed(w, v, pk, tk),
{
    let po = place_order(v);
    let to = transition_order(v);
    let pv = project_of(v);
    lemma_positions(v.places.dom(), po);
    assert forall|i: int| 0 <= i < pk.len() implies (#[trigger] w.places[pk[i]]).label@ == v.places[po[i]].label@ && w.places[pk[i]].tokens
        == v.places[po[i]].tokens by {
        assert(pv.places[i] == (v.places[po[i]].label@, v.places[po[i]].tokens));
    };
    assert forall|j: int| 0 <= j < tk.len() implies {
        let d = #[trigger] w.transitions[tk[j]];
        &&& d.label@ == v.transitions[to[j]].label@
        &&& d.inputs@ == v.transitions[to[j]].inputs@.map_values(|a: (PlaceId, ArcKind)| (PlaceId(pk[position(po, a.0.0)]), a.1))
        &&& d.outputs@ == v.transitions[to[j]].outputs@.map_values(|a: (PlaceId, u32)| (PlaceId(pk[position(po, a.0.0)]), a.1))
    } by {
        let t = to[j];
        assert(v.transitions.dom().contains(t)) by {
            assert(to.contains(t));
        };
        let pt = pv.transitions[j];
        let ins = v.transitions[t].inputs@;
        let outs = v.transitions[t].outputs@;
        assert(pt.inputs == ins.map_values(|a: (PlaceId, ArcKind)| (position(po, a.0.0) as u32, tag_of(a.1), kind_weight(a.1))));
        assert forall|a: int| 0 <= a < pt.inputs.len() implies (#[trigger] pt.inputs[a]).0 < pk.len() && pt.inputs[a].0 == position(po, ins[a].0.0) by {
            assert(v.places.dom().contains(ins[a].0.0));
        };
        assert forall|a: int, b: int| 0 <= a < b < pt.inputs.len() implies (#[trigger] pt.inputs[a]).0 != (#[trigger] pt.inputs[b]).0 by {
            assert(v.places.dom().contains(ins[a].0.0));
            assert(v.places.dom().contains(ins[b].0.0));
            assert(ins[a].0 != ins[b].0);
            assert(ins[a].0.0 != ins[b].0.0);
        };
        lemma_kept_inputs_all(pt.inputs, pk.len());
        assert forall|a: int| 0 <= a < pt.outputs.len() implies (#[trigger] pt.outputs[a]).0 < pk.len() && pt.outputs[a].0 == position(po, outs[a].0.0) by {
            assert(v.places.dom().contains(outs[a].0.0));
        };
        assert forall|a: int, b: int| 0 <= a < b < pt.outputs.len() implies (#[trigger] pt.outputs[a]).0 != (#[trigger] pt.outputs[b]).0 by {
            assert(v.places.dom().contains(outs[a].0.0));
            assert(v.places.dom().contains(outs[b].0.0));
            assert(outs[a].0 != outs[b].0);
            assert(outs[a].0.0 != outs[b].0.0);
        };
        lemma_kept_outputs_all(pt.outputs, pk.len());
        let d = w.transitions[tk[j]];
        assert(d.inputs@ =~= ins.map_values(|a: (PlaceId, ArcKind)| (PlaceId(pk[position(po, a.0.0)]), a.1))) by {
            assert forall|a: int| 0 <= a < ins.len() implies d.inputs@[a] == (PlaceId(pk[position(po, ins[a].0.0)]), ins[a].1) by {
                assert(pt.inputs[a].0 == position(po, ins[a].0.0));
                let k = ins[a].1;
                assert(kind_of(tag_of(k), kind_weight(k)) == k);
            };
        };
        assert(d.outputs@ =~= outs.map_values(|a: (PlaceId, u32)| (PlaceId(pk[position(po, a.0.0)]), a.1))) by {
            assert forall|a: int| 0 <= a < outs.len() implies d.outputs@[a] == (PlaceId(pk[position(po, outs[a].0.0)]), outs[a].1) by {
                assert(pt.outputs[a].0 == position(po, outs[a].0.0));
            };
        };
    };
}

/// The version of the file format this library writes and reads.
pub const VERSION: u8 = 3;

/// The bytes a project file starts with: `PCRB`.
pub open spec fn magic() -> Seq<u8> {
    seq![0x50u8, 0x43u8, 0x52u8, 0x42u8]
}

/// A project file holding the archived bytes `archived`: the magic bytes,
/// the format version, then the archive.
pub open spec fn framed(archived: Seq<u8>) -> Seq<u8> {
    magic() + seq![VERSION] + archived
}

/// Why bytes are not a project file this library reads.
#[derive(Clone, Copy, PartialEq, Eq, Debug, Structural)]
pub enum ProjectError {
    /// Too short, or not starting with the magic bytes.
    NotAProject,
    /// Written in another version of the format.
    UnsupportedVersion(u8),
}

/// What reading the header of `bytes` gives: the archive after it, or why
/// there is none.
pub open spec fn unframed(bytes: Seq<u8>) -> Result<Seq<u8>, ProjectError> {
    if bytes.len() < 5 || bytes.take(4) != magic() {
        Err(ProjectError::NotAProject)
    } else if bytes[4] != VERSION {
        Err(ProjectError::UnsupportedVersion(bytes[4]))
    } else {
        Ok(bytes.skip(5))
    }
}

/// The file bytes for the archive `archived`.
pub fn frame(archived: &Vec<u8>) -> (r: Vec<u8>)
    ensures
        r@ == framed(archived@),
{
    let mut out: Vec<u8> = Vec::new();
    out.push(0x50);
    out.push(0x43);
    out.push(0x52);
    out.push(0x42);
    out.push(VERSION);
    let mut i: usize = 0;
    while i < archived.len()
        invariant
            i <= archived@.len(),
            out@ == magic() + seq![VERSION] + archived@.take(i as int),
        decreases archived@.len() - i,
    {
        out.push(archived[i]);
        i += 1;
        assert(out@ =~= magic() + seq![VERSION] + archived@.take(i as int));
    }
    assert(archived@.take(i as int) =~= archived@);
    out
}

/// The archive inside the file bytes `bytes`, once the header is checked.
pub fn unframe(bytes: &Vec<u8>) -> (r: Result<Vec<u8>, ProjectError>)
    ensures
        match r {
            Ok(v) => unframed(bytes@) == Ok::<Seq<u8>, ProjectError>(v@),
            Err(e) => unframed(bytes@) == Err::<Seq<u8>, ProjectError>(e),
        },
{
    if bytes.len() < 5 || bytes[0] != 0x50 || bytes[1] != 0x43 || bytes[2] != 0x52 || bytes[3] != 0x42 {
        proof {
            if bytes@.len() >= 5 {
                if bytes@.take(4) == magic() {
                    assert(bytes@[0] == bytes@.take(4)[0]);
                    assert(bytes@[1] == bytes@.take(4)[1]);
                    assert(bytes@[2] == bytes@.take(4)[2]);
                    assert(bytes@[3] == bytes@.take(4)[3]);
                }
            }
        }
        return Err(ProjectError::NotAProject);
    }
    assert(bytes@.take(4) =~= magic());
    if bytes[4] != VERSION {
        return Err(ProjectError::UnsupportedVersion(bytes[4]));
    }
    let mut out: Vec<u8> = Vec::new();
    let mut i: usize = 5;
    while i < bytes.len()
        invariant
            5 <= i <= bytes@.len(),
            out@ == bytes@.subrange(5, i as int),
        decreases bytes@.len() - i,
    {
        out.push(bytes[i]);
        i += 1;
        assert(out@ =~= bytes@.subrange(5, i as int));
    }
    assert(out@ =~= bytes@.skip(5));
    Ok(out)
}

/// Reading the header of a file this library wrote gives back its archive.
pub proof fn lemma_unframe_framed(archived: Seq<u8>)
    ensures
        unframed(framed(archived)) == Ok::<Seq<u8>, ProjectError>(archived),
{
    let b = framed(archived);
    assert(b.take(4) =~= magic());
    assert(b[4] == VERSION);
    assert(b.skip(5) =~= archived);
}

impl ProjectError {
    /// What the error says to the user.
    pub open spec fn text(self) -> Seq<char> {
        match self {
            ProjectError::NotAProject => "no es un archivo de proyecto de petricrab"@,
            ProjectError::UnsupportedVersion(v) => "versión de formato no soportada: "@ + decimal(v as nat),
        }
    }

    /// What the error says to the user.
    pub fn message(&self) -> (s: String)
        ensures
            s@ == self.text(),
    {
        match self {
            ProjectError::NotAProject => crate::text::string_of(&crate::text::chars_of("no es un archivo de proyecto de petricrab")),
            ProjectError::UnsupportedVersion(v) => {
                let mut out = crate::text::chars_of("versión de formato no soportada: ");
                let d = crate::text::decimal_chars(*v as u64);
                let joined = crate::text::concat(&out, &d);
                crate::text::string_of(&joined)
            },
        }
    }
}

/// The number after `prefix` in `label`, if `label` is `prefix` followed by
/// a number as `usize::from_str` reads it.
pub open spec fn suffix_number(label: Seq<char>, prefix: char) -> Option<usize> {
    if label.len() > 0 && label[0] == prefix {
        parse_usize_spec(label.drop_first())
    } else {
        None
    }
}

/// The largest number among the labels of `labels` of the form `prefix`
/// followed by a number, or zero if none is.
pub open spec fn max_suffix(labels: Seq<Seq<char>>, prefix: char) -> usize
    decreases labels.len(),
{
    if labels.len() == 0 {
        0
    } else {
        let m = max_suffix(labels.drop_last(), prefix);
        match suffix_number(labels.last(), prefix) {
            Some(n) => if n > m {
                n
            } else {
                m
            },
            None => m,
        }
    }
}

/// The largest `N` among labels of the form `prefix` followed by `N`, or zero
/// if none is; numbering new nodes past it avoids reusing a label.
pub fn max_numeric_suffix(labels: &Vec<String>, prefix: char) -> (r: usize)
    ensures
        r == max_suffix(labels@.map_values(|l: String| l@), prefix),
{
    let ghost lv = labels@.map_values(|l: String| l@);
    let mut best: usize = 0;
    let mut i: usize = 0;
    assert(lv.take(0) =~= Seq::<Seq<char>>::empty());
    while i < labels.len()
        invariant
            lv == labels@.map_values(|l: String| l@),
            lv.len() == labels@.len(),
            i <= labels@.len(),
            best == max_suffix(lv.take(i as int), prefix),
        decreases labels@.len() - i,
    {
        let chars = crate::text::chars_of(labels[i].as_str());
        assert(lv[i as int] == chars@);
        assert(lv.take(i + 1).drop_last() =~= lv.take(i as int));
        assert(lv.take(i + 1).last() == chars@);
        if chars.len() > 0 && chars[0] == prefix {
            let rest = crate::text::slice_of(&chars, 1, chars.len());
            assert(rest@ == chars@.drop_first());
            match parse_usize(&rest) {
                Some(n) => {
                    if n > best {
                        best = n;
                    }
                },
                None => {},
            }
        }
        i += 1;
    }
    assert(lv.take(i as int) =~= lv);
    best
}

} // verus!
