//! Behavioural analysis of an editable net: the editable model is turned into a
//! place/transition net over plain indices, analysed there, and the answers are
//! read back in terms of the model's own keys.
use vstd::prelude::*;

use crate::marking::Marking as CoreMarking;
use crate::boundedness::{boundedness_in, boundedness_report, bound_of, bound_upto, Boundedness};
use crate::deadlock::{dead_ends_of, deadlocks, deadlocks_covering_in, is_dead, stands_for_deadlock};
use crate::liveness::{fires_along, liveness_covering_in, liveness_level, liveness_report, murata_level, Liveness};
use crate::reversibility::{home_in, home_states, is_home, is_reversible, reversible, reversible_covering_in};
use crate::coverability::{coverability_graph, extend, is_coverability_graph, km_fits, no_inhibit, omega_free, ExtendedToken};
use crate::graph::GraphView;
use crate::model::fire::{enabled_transitions, fire_fits, fire_fits_check, is_enabled, fired, fits_everywhere, lemma_fired_unique, model_reachable, touches, consumes, enabled_in, fire_in, fire_result, lemma_model_run_push, lemma_run_fits_push, model_run, run_fits, tokens_in};
use crate::model::slots::slot_index;
use crate::model::marking::{key_sorted, lookup};
use crate::graph::{lemma_unique_within, views};
use crate::liveness::{bfs_depth, bfs_path, bfs_reconstruct, lemma_bfs_path_prefix, link_from};
use crate::model::{ArcKind as ModelArcKind, Marking as ModelMarking, ModelView, PetriNet as ModelNet, PlaceId as ModelPlaceId, TransitionId as ModelTransitionId};
use crate::net::{
    lemma_place_insert_below, places_below, puts, Arc, TransitionId, ArcKind, ArcsView, NetView, PetriNet, PlaceId, Weight,
};

verus! {

/// `s` lists the keys of `dom`, once each, in slot order.
pub open spec fn in_slot_order(dom: Set<u64>, s: Seq<u64>) -> bool {
    &&& forall|i: int, j: int| 0 <= i < j < s.len() ==> slot_index(s[i]) < slot_index(s[j])
    &&& forall|k: u64| dom.contains(k) <==> s.contains(k)
}

/// The keys of the places of `net`, in slot order.
pub open spec fn place_order(net: ModelView) -> Seq<u64> {
    choose|s: Seq<u64>| in_slot_order(net.places.dom(), s)
}

/// The keys of the transitions of `net`, in slot order.
pub open spec fn transition_order(net: ModelView) -> Seq<u64> {
    choose|s: Seq<u64>| in_slot_order(net.transitions.dom(), s)
}

/// Two sequences in slot order with the same keys are the same sequence.
pub proof fn lemma_slot_order_unique(dom: Set<u64>, s: Seq<u64>, t: Seq<u64>)
    requires
        in_slot_order(dom, s),
        in_slot_order(dom, t),
    ensures
        s == t,
    decreases s.len(),
{
    if s.len() == 0 {
        if t.len() > 0 {
            assert(dom.contains(t[0]));
        }
        assert(s =~= t);
    } else {
        assert(s.contains(s[0]));
        assert(dom.contains(s[0]));
        assert(t.len() > 0);
        assert(t.contains(t[0]));
        assert(dom.contains(t[0]));
        let k = choose|k: int| 0 <= k < t.len() && t[k] == s[0];
        let m = choose|m: int| 0 <= m < s.len() && s[m] == t[0];
        if k > 0 {
            if m > 0 {
                assert(slot_index(t[0]) < slot_index(t[k]));
                assert(slot_index(s[0]) < slot_index(s[m]));
            }
        }
        assert(s[0] == t[0]);
        let d = dom.remove(s[0]);
        let s1 = s.drop_first();
        let t1 = t.drop_first();
        assert forall|x: u64| d.contains(x) <==> s1.contains(x) by {
            if s1.contains(x) {
                let i = choose|i: int| 0 <= i < s1.len() && s1[i] == x;
                assert(s[i + 1] == x);
                assert(slot_index(s[0]) < slot_index(s[i + 1]));
            }
            if d.contains(x) {
                let i = choose|i: int| 0 <= i < s.len() && s[i] == x;
                assert(i != 0);
                assert(s1[i - 1] == x);
            }
        };
        assert forall|x: u64| d.contains(x) <==> t1.contains(x) by {
            if t1.contains(x) {
                let i = choose|i: int| 0 <= i < t1.len() && t1[i] == x;
                assert(t[i + 1] == x);
                assert(slot_index(t[0]) < slot_index(t[i + 1]));
            }
            if d.contains(x) {
                let i = choose|i: int| 0 <= i < t.len() && t[i] == x;
                assert(i != 0);
                assert(t1[i - 1] == x);
            }
        };
        lemma_slot_order_unique(d, s1, t1);
        assert(s =~= seq![s[0]] + s1);
        assert(t =~= seq![t[0]] + t1);
    }
}

/// Position of `k` in `s` (meaningful when `s` holds it).
pub open spec fn position(s: Seq<u64>, k: u64) -> int {
    choose|i: int| 0 <= i < s.len() && s[i] == k
}

/// The keys `place_ids` lists are the places in slot order, each at its own position.
pub proof fn lemma_place_ids_in_order(v: ModelView, ids: Seq<ModelPlaceId>)
    requires
        forall|i: int, j: int| 0 <= i < j < ids.len() ==> slot_index(ids[i].0) < slot_index(ids[j].0),
        forall|k: u64| #[trigger] v.places.dom().contains(k) <==> ids.contains(ModelPlaceId(k)),
    ensures
        place_keys(ids) == place_order(v),
        in_slot_order(v.places.dom(), place_order(v)),
        forall|i: int| 0 <= i < ids.len() ==> position(place_order(v), #[trigger] place_order(v)[i]) == i,
{
    let ps = place_keys(ids);
    assert forall|k: u64| v.places.dom().contains(k) <==> ps.contains(k) by {
        if ps.contains(k) {
            let i = choose|i: int| 0 <= i < ps.len() && ps[i] == k;
            assert(ids[i] == ModelPlaceId(k));
        }
        if v.places.dom().contains(k) {
            let i = choose|i: int| 0 <= i < ids.len() && ids[i] == ModelPlaceId(k);
            assert(ps[i] == k);
        }
    };
    assert(in_slot_order(v.places.dom(), ps));
    lemma_slot_order_unique(v.places.dom(), ps, place_order(v));
    assert forall|i: int| 0 <= i < ps.len() implies position(ps, #[trigger] ps[i]) == i by {
        let c = position(ps, ps[i]);
        if c != i {
            if c < i {
                assert(slot_index(ps[c]) < slot_index(ps[i]));
            } else {
                assert(slot_index(ps[i]) < slot_index(ps[c]));
            }
        }
    };
}

/// The keys `transition_ids` lists are the transitions in slot order, each at its own position.
pub proof fn lemma_transition_ids_in_order(v: ModelView, ids: Seq<ModelTransitionId>)
    requires
        forall|i: int, j: int| 0 <= i < j < ids.len() ==> slot_index(ids[i].0) < slot_index(ids[j].0),
        forall|k: u64| #[trigger] v.transitions.dom().contains(k) <==> ids.contains(ModelTransitionId(k)),
    ensures
        transition_keys(ids) == transition_order(v),
        in_slot_order(v.transitions.dom(), transition_order(v)),
        forall|i: int| 0 <= i < ids.len() ==> position(transition_order(v), #[trigger] transition_order(v)[i]) == i,
{
    let ts = transition_keys(ids);
    assert forall|k: u64| v.transitions.dom().contains(k) <==> ts.contains(k) by {
        if ts.contains(k) {
            let i = choose|i: int| 0 <= i < ts.len() && ts[i] == k;
            assert(ids[i] == ModelTransitionId(k));
        }
        if v.transitions.dom().contains(k) {
            let i = choose|i: int| 0 <= i < ids.len() && ids[i] == ModelTransitionId(k);
            assert(ts[i] == k);
        }
    };
    assert(in_slot_order(v.transitions.dom(), ts));
    lemma_slot_order_unique(v.transitions.dom(), ts, transition_order(v));
    assert forall|i: int| 0 <= i < ts.len() implies position(ts, #[trigger] ts[i]) == i by {
        let c = position(ts, ts[i]);
        if c != i {
            if c < i {
                assert(slot_index(ts[c]) < slot_index(ts[i]));
            } else {
                assert(slot_index(ts[i]) < slot_index(ts[c]));
            }
        }
    };
}

/// Kind of the analysis arc standing for a model arc: the weight of a consume
/// arc is kept, while peek and inhibitor arcs become the classic unweighted
/// ones (some token present, no token present).
pub open spec fn analysis_kind(k: ModelArcKind) -> ArcKind {
    match k {
        ModelArcKind::Consume(w) => ArcKind::Consume(Weight(w as usize)),
        ModelArcKind::Peek(_) => ArcKind::Peek,
        ModelArcKind::Inhibit(_) => ArcKind::Inhibit,
    }
}

/// Input arcs of the analysis net standing for the model input arcs `s`, over
/// the place order `ps`.
pub open spec fn analysis_inputs(s: Seq<(ModelPlaceId, ModelArcKind)>, ps: Seq<u64>) -> Seq<(PlaceId, ArcKind)> {
    s.map_values(|e: (ModelPlaceId, ModelArcKind)| (PlaceId(position(ps, e.0.0) as usize), analysis_kind(e.1)))
}

/// Output arcs of the analysis net standing for the model output arcs `s`, over
/// the place order `ps`.
pub open spec fn analysis_outputs(s: Seq<(ModelPlaceId, u32)>, ps: Seq<u64>) -> Seq<(PlaceId, Weight)> {
    s.map_values(|e: (ModelPlaceId, u32)| (PlaceId(position(ps, e.0.0) as usize), Weight(e.1 as usize)))
}

/// The place/transition net standing for the editable `net`: place `i` is the
/// `i`-th place of `net` in slot order, transition `j` the `j`-th transition,
/// with the same arcs (kept in place order).
pub open spec fn analysis_view(net: ModelView) -> NetView {
    let ps = place_order(net);
    let ts = transition_order(net);
    NetView {
        places: ps.len(),
        transitions: Seq::new(
            ts.len(),
            |j: int|
                ArcsView {
                    inputs: puts(Seq::empty(), analysis_inputs(net.inputs(ts[j]), ps)),
                    output: puts(Seq::empty(), analysis_outputs(net.outputs(ts[j]), ps)),
                },
        ),
    }
}

/// The initial marking of the analysis net: the tokens `m` records for each
/// place of `net`, in slot order (zero where it records none).
pub open spec fn analysis_tokens(net: ModelView, m: Seq<(ModelPlaceId, u32)>) -> Seq<usize> {
    let ps = place_order(net);
    Seq::new(ps.len(), |i: int| tokens_in(m, ModelPlaceId(ps[i])) as usize)
}

/// An editable net turned into a place/transition net over plain indices, with
/// the model key of each place and transition.
pub struct AnalysisNet {
    pub net: PetriNet,
    pub initial: CoreMarking,
    pub place_map: Vec<ModelPlaceId>,
    pub transition_map: Vec<ModelTransitionId>,
}

/// Whether `v` holds `k`, and where.
fn find_key(v: &Vec<ModelPlaceId>, k: ModelPlaceId) -> (r: Option<usize>)
    ensures
        match r {
            Some(i) => i < v@.len() && v@[i as int] == k,
            None => forall|i: int| 0 <= i < v@.len() ==> v@[i] != k,
        },
{
    let mut i: usize = 0;
    while i < v.len()
        invariant
            i <= v@.len(),
            forall|j: int| 0 <= j < i ==> v@[j] != k,
        decreases v@.len() - i,
    {
        if v[i] == k {
            return Some(i);
        }
        i += 1;
    }
    None
}

/// Keys of a list of place ids.
pub open spec fn place_keys(v: Seq<ModelPlaceId>) -> Seq<u64> {
    v.map_values(|p: ModelPlaceId| p.0)
}

/// Keys of a list of transition ids.
pub open spec fn transition_keys(v: Seq<ModelTransitionId>) -> Seq<u64> {
    v.map_values(|t: ModelTransitionId| t.0)
}

/// The analysis net of the editable `net` with tokens `marking`.
pub fn to_analysis_net(net: &ModelNet, marking: &ModelMarking) -> (a: AnalysisNet)
    requires
        net.wf(),
    ensures
        a.net.wf(),
        a.net@ == analysis_view(net@),
        a.net@.within(a.initial@.len()),
        a.initial@ == analysis_tokens(net@, marking@),
        place_keys(a.place_map@) == place_order(net@),
        transition_keys(a.transition_map@) == transition_order(net@),
        in_slot_order(net@.places.dom(), place_order(net@)),
        in_slot_order(net@.transitions.dom(), transition_order(net@)),
        forall|j: int, m: Seq<(ModelPlaceId, u32)>|
            0 <= j < a.net@.transitions.len() && crate::fidelity::unit_side_arcs(net@.inputs(transition_order(net@)[j]))
            ==> (#[trigger] a.net@.transitions[j].enabled(analysis_tokens(net@, m)))
                == enabled_in(net@.inputs(transition_order(net@)[j]), m),
        forall|j: int, m: Seq<(ModelPlaceId, u32)>, r: Seq<(ModelPlaceId, u32)>|
            0 <= j < a.net@.transitions.len() && crate::fidelity::unit_side_arcs(net@.inputs(transition_order(net@)[j]))
                && #[trigger] fired(net@, m, transition_order(net@)[j], r)
            ==> a.net@.transitions[j].fire(analysis_tokens(net@, m)) == analysis_tokens(net@, r),
        crate::fidelity::unit_side_net(net@) && key_sorted(marking@) && fits_everywhere(net@, marking@) ==> forall|h: Seq<usize>|
            #[trigger] a.net@.reachable(a.initial@, h) <==> exists|m: Seq<(ModelPlaceId, u32)>|
                model_reachable(net@, marking@, m) && analysis_tokens(net@, m) == h,
{
    let ghost nv = net@;
    let place_ids = net.place_ids();
    let transition_ids = net.transition_ids();
    let ghost ps = place_keys(place_ids@);
    let ghost ts = transition_keys(transition_ids@);
    proof {
        assert(in_slot_order(nv.places.dom(), ps)) by {
            assert forall|k: u64| nv.places.dom().contains(k) <==> ps.contains(k) by {
                if ps.contains(k) {
                    let i = choose|i: int| 0 <= i < ps.len() && ps[i] == k;
                    assert(place_ids@[i] == ModelPlaceId(k));
                }
                if nv.places.dom().contains(k) {
                    let i = choose|i: int| 0 <= i < place_ids@.len() && place_ids@[i] == ModelPlaceId(k);
                    assert(ps[i] == k);
                }
            };
        };
        lemma_slot_order_unique(nv.places.dom(), ps, place_order(nv));
        assert(in_slot_order(nv.transitions.dom(), ts)) by {
            assert forall|k: u64| nv.transitions.dom().contains(k) <==> ts.contains(k) by {
                if ts.contains(k) {
                    let i = choose|i: int| 0 <= i < ts.len() && ts[i] == k;
                    assert(transition_ids@[i] == ModelTransitionId(k));
                }
                if nv.transitions.dom().contains(k) {
                    let i = choose|i: int| 0 <= i < transition_ids@.len() && transition_ids@[i] == ModelTransitionId(k);
                    assert(ts[i] == k);
                }
            };
        };
        lemma_slot_order_unique(nv.transitions.dom(), ts, transition_order(nv));
        assert forall|i: int, j: int| 0 <= i < j < ps.len() implies ps[i] != ps[j] by {
            assert(slot_index(ps[i]) < slot_index(ps[j]));
        };
        assert forall|i: int| 0 <= i < ps.len() implies position(ps, ps[i]) == i by {
            let c = position(ps, ps[i]);
            if c != i {
                if c < i {
                    assert(slot_index(ps[c]) < slot_index(ps[i]));
                } else {
                    assert(slot_index(ps[i]) < slot_index(ps[c]));
                }
            }
        };
    }
    let mut core = PetriNet::default();
    let mut tokens: Vec<usize> = Vec::new();
    let mut i: usize = 0;
    while i < place_ids.len()
        invariant
            core.wf(),
            core@.places == i,
            core@.transitions.len() == 0,
            ps == place_keys(place_ids@),
            ps == place_order(nv),
            i <= place_ids@.len(),
            tokens@.len() == i,
            forall|j: int| 0 <= j < i ==> tokens@[j] == tokens_in(marking@, ModelPlaceId(ps[j])) as usize,
        decreases place_ids@.len() - i,
    {
        core.add_place();
        tokens.push(marking.tokens_or_zero(place_ids[i]) as usize);
        proof {
            assert(place_ids@[i as int] == ModelPlaceId(ps[i as int]));
        }
        i += 1;
    }
    let ghost target = analysis_view(nv);
    let mut j: usize = 0;
    while j < transition_ids.len()
        invariant
            net.wf(),
            nv == net@,
            core.wf(),
            core@.places == ps.len(),
            ps == place_keys(place_ids@),
            ps == place_order(nv),
            ts == transition_keys(transition_ids@),
            ts == transition_order(nv),
            forall|a: int| 0 <= a < ps.len() ==> position(ps, ps[a]) == a,
            forall|k: u64| nv.places.dom().contains(k) <==> ps.contains(k),
            target == analysis_view(nv),
            j <= transition_ids@.len(),
            core@.transitions.len() == j,
            core@.within(ps.len()),
            forall|a: int| 0 <= a < j ==> core@.transitions[a] == #[trigger] target.transitions[a],
        decreases transition_ids@.len() - j,
    {
        let t = transition_ids[j];
        let inputs = net.inputs(t);
        let outputs = net.outputs(t);
        let mut arcs = Arc::default();
        let ghost want_in = analysis_inputs(nv.inputs(t.0), ps);
        let ghost want_out = analysis_outputs(nv.outputs(t.0), ps);
        let mut k: usize = 0;
        while k < inputs.len()
            invariant
                arcs.wf(),
                inputs@ == nv.inputs(t.0),
                nv.wf(),
                t.0 == ts[j as int],
                forall|a: int| 0 <= a < ps.len() ==> position(ps, ps[a]) == a,
                forall|kk: u64| nv.places.dom().contains(kk) <==> ps.contains(kk),
                want_in == analysis_inputs(nv.inputs(t.0), ps),
                place_keys(place_ids@) == ps,
                k <= inputs@.len(),
                arcs@.inputs == puts(Seq::empty(), want_in.take(k as int)),
                arcs@.output == Seq::<(PlaceId, Weight)>::empty(),
                places_below(arcs@.inputs, ps.len()),
            decreases inputs@.len() - k,
        {
            let (p, kind) = inputs[k];
            proof {
                assert(nv.transitions.dom().contains(t.0)) by {
                    assert(nv.inputs(t.0).len() > 0);
                };
                assert(nv.places.dom().contains(nv.transitions[t.0].inputs@[k as int].0.0));
                assert(ps.contains(p.0));
            }
            match find_key(&place_ids, p) {
                Some(idx) => {
                    let mapped = match kind {
                        ModelArcKind::Consume(w) => ArcKind::Consume(Weight::new(w as usize)),
                        ModelArcKind::Peek(_) => ArcKind::Peek,
                        ModelArcKind::Inhibit(_) => ArcKind::Inhibit,
                    };
                    proof {
                        assert(ps[idx as int] == p.0);
                        assert(position(ps, p.0) == idx);
                        assert(want_in[k as int] == (PlaceId(idx), mapped));
                        lemma_place_insert_below(arcs@.inputs, PlaceId(idx), mapped, ps.len());
                        assert(want_in.take(k + 1).drop_last() =~= want_in.take(k as int));
                    }
                    arcs.add_input_inplace(PlaceId(idx), mapped);
                },
                None => {
                    proof {
                        let a = choose|a: int| 0 <= a < ps.len() && ps[a] == p.0;
                        assert(place_ids@[a] == p);
                    }
                },
            }
            k += 1;
        }
        proof {
            assert(want_in.take(want_in.len() as int) =~= want_in);
        }
        let mut k: usize = 0;
        while k < outputs.len()
            invariant
                arcs.wf(),
                outputs@ == nv.outputs(t.0),
                nv.wf(),
                forall|a: int| 0 <= a < ps.len() ==> position(ps, ps[a]) == a,
                forall|kk: u64| nv.places.dom().contains(kk) <==> ps.contains(kk),
                want_out == analysis_outputs(nv.outputs(t.0), ps),
                place_keys(place_ids@) == ps,
                k <= outputs@.len(),
                arcs@.inputs == puts(Seq::empty(), want_in),
                arcs@.output == puts(Seq::empty(), want_out.take(k as int)),
                places_below(arcs@.inputs, ps.len()),
                places_below(arcs@.output, ps.len()),
            decreases outputs@.len() - k,
        {
            let (p, w) = outputs[k];
            proof {
                assert(nv.transitions.dom().contains(t.0)) by {
                    assert(nv.outputs(t.0).len() > 0);
                };
                assert(nv.places.dom().contains(nv.transitions[t.0].outputs@[k as int].0.0));
                assert(ps.contains(p.0));
            }
            match find_key(&place_ids, p) {
                Some(idx) => {
                    proof {
                        assert(ps[idx as int] == p.0);
                        assert(position(ps, p.0) == idx);
                        assert(want_out[k as int] == (PlaceId(idx), Weight(w as usize)));
                        lemma_place_insert_below(arcs@.output, PlaceId(idx), Weight(w as usize), ps.len());
                        assert(want_out.take(k + 1).drop_last() =~= want_out.take(k as int));
                    }
                    arcs.add_output_inplace(PlaceId(idx), Weight::new(w as usize));
                },
                None => {
                    proof {
                        let a = choose|a: int| 0 <= a < ps.len() && ps[a] == p.0;
                        assert(place_ids@[a] == p);
                    }
                },
            }
            k += 1;
        }
        proof {
            assert(want_out.take(want_out.len() as int) =~= want_out);
            core.lemma_wf();
            assert(transition_ids@[j as int] == t);
            assert(target.transitions[j as int] == arcs@);
        }
        let ghost before = core@;
        core.add_transition(arcs);
        proof {
            assert forall|a: int| 0 <= a < j + 1 implies core@.transitions[a] == #[trigger] target.transitions[a] by {
                if a < j {
                    assert(core@.transitions[a] == before.transitions[a]);
                }
            };
            assert forall|a: int| 0 <= a < core@.transitions.len() implies #[trigger] core@.transitions[a].within(ps.len()) by {
                if a < j {
                    assert(core@.transitions[a] == before.transitions[a]);
                }
            };
        }
        j += 1;
    }
    proof {
        assert(core@.transitions =~= target.transitions);
    }
    let initial = core.initial_marking(tokens);
    proof {
        assert(initial@ =~= analysis_tokens(nv, marking@));
        assert(core@ == analysis_view(nv));
        assert(core@.transitions.len() == transition_order(nv).len());
        assert forall|jj: int, m: Seq<(ModelPlaceId, u32)>|
            0 <= jj < core@.transitions.len() && crate::fidelity::unit_side_arcs(nv.inputs(transition_order(nv)[jj]))
            implies (#[trigger] core@.transitions[jj].enabled(analysis_tokens(nv, m)))
                == enabled_in(nv.inputs(transition_order(nv)[jj]), m) by {
            crate::fidelity::lemma_analysis_fires_as_model(nv, m, jj, m);
        };
        assert forall|jj: int, m: Seq<(ModelPlaceId, u32)>, r: Seq<(ModelPlaceId, u32)>|
            0 <= jj < core@.transitions.len() && crate::fidelity::unit_side_arcs(nv.inputs(transition_order(nv)[jj]))
                && #[trigger] fired(nv, m, transition_order(nv)[jj], r)
            implies core@.transitions[jj].fire(analysis_tokens(nv, m)) == analysis_tokens(nv, r) by {
            crate::fidelity::lemma_analysis_fires_as_model(nv, m, jj, r);
        };
        if crate::fidelity::unit_side_net(nv) && key_sorted(marking@) && fits_everywhere(nv, marking@) {
            assert forall|h: Seq<usize>| #[trigger] core@.reachable(initial@, h) <==> exists|m: Seq<(ModelPlaceId, u32)>|
                model_reachable(nv, marking@, m) && analysis_tokens(nv, m) == h by {
                crate::fidelity::lemma_analysis_reaches_as_model(nv, marking@, h);
            };
        }
    }
    AnalysisNet { net: core, initial, place_map: place_ids, transition_map: transition_ids }
}

/// Places of `net` that the Karp-Miller coverability graph of its analysis net
/// shows unbounded, in slot order.
pub fn unbounded_places(net: &ModelNet, marking: &ModelMarking) -> (r: Vec<ModelPlaceId>)
    requires
        net.wf(),
        km_fits(analysis_view(net@), extend(analysis_tokens(net@, marking@))),
    ensures
        exists|g: GraphView<Seq<ExtendedToken>>| #[trigger] is_coverability_graph(
            analysis_view(net@),
            analysis_tokens(net@, marking@),
            g,
        ) && place_keys(r@) == unbounded_in(place_order(net@), g),
        no_inhibit(analysis_view(net@)) && r@.len() > 0 ==> !analysis_view(net@).fits_from(analysis_tokens(net@, marking@)),
{
    let a = to_analysis_net(net, marking);
    proof {
        a.net.lemma_wf();
    }
    let report = boundedness_report(&a.net, &a.initial);
    let ghost g = choose|g: GraphView<Seq<ExtendedToken>>| #[trigger] is_coverability_graph(a.net@, a.initial@, g)
        && forall|p: int| 0 <= p < report@.len() ==> #[trigger] report@[p] == bound_of(g.nodes, p);
    let ghost ps = place_order(net@);
    let mut r: Vec<ModelPlaceId> = Vec::new();
    let mut i: usize = 0;
    while i < a.place_map.len()
        invariant
            place_keys(a.place_map@) == ps,
            report@.len() == ps.len(),
            forall|p: int| 0 <= p < report@.len() ==> #[trigger] report@[p] == bound_of(g.nodes, p),
            i <= ps.len(),
            place_keys(r@) == unbounded_in(ps.take(i as int), g),
        decreases ps.len() - i,
    {
        proof {
            assert(ps.take(i + 1).drop_last() =~= ps.take(i as int));
            assert(ps.take(i + 1).last() == ps[i as int]);
            lemma_unbounded_in_len(ps.take(i as int), g);
        }
        let ghost prev = r@;
        if let Boundedness::Unbounded = report[i] {
            r.push(a.place_map[i]);
            proof {
                assert(place_keys(r@) =~= place_keys(prev).push(ps[i as int]));
            }
        }
        i += 1;
    }
    proof {
        assert(ps.take(ps.len() as int) =~= ps);
        if no_inhibit(analysis_view(net@)) && r@.len() > 0 {
            assert(place_keys(r@).len() == r@.len());
            lemma_listed_unbounded(net@, marking@, g);
        }
    }
    r
}

/// The keys among `ps` whose place (by position) the node list `g` shows unbounded, in order.
pub open spec fn unbounded_in(ps: Seq<u64>, g: GraphView<Seq<ExtendedToken>>) -> Seq<u64>
    decreases ps.len(),
{
    if ps.len() == 0 {
        Seq::empty()
    } else {
        let r = unbounded_in(ps.drop_last(), g);
        if bound_of(g.nodes, ps.len() - 1) is Unbounded {
            r.push(ps.last())
        } else {
            r
        }
    }
}

proof fn lemma_unbounded_in_len(ps: Seq<u64>, g: GraphView<Seq<ExtendedToken>>)
    ensures
        unbounded_in(ps, g).len() <= ps.len(),
    decreases ps.len(),
{
    if ps.len() > 0 {
        lemma_unbounded_in_len(ps.drop_last(), g);
    }
}

/// Replays `path` from `from` on the editable net and returns every marking
/// visited, `from` first. Stops early, before the first transition of `path`
/// that is not enabled when its turn comes.
pub fn replay_path(net: &ModelNet, from: &ModelMarking, path: &[ModelTransitionId]) -> (states: Vec<ModelMarking>)
    requires
        net.wf(),
        run_fits(net@, from@, path@),
    ensures
        1 <= states@.len() <= path@.len() + 1,
        states@[0]@ == from@,
        forall|i: int| 0 <= i < states@.len() ==> model_run(net@, from@, path@.take(i)) == Some(#[trigger] states@[i]@),
        states@.len() < path@.len() + 1 ==> model_run(net@, from@, path@.take(states@.len() as int)) is None,
{
    let mut states: Vec<ModelMarking> = Vec::new();
    states.push(from.duplicate());
    let mut current = from.duplicate();
    proof {
        assert(path@.take(0) =~= Seq::<ModelTransitionId>::empty());
    }
    let mut i: usize = 0;
    while i < path.len()
        invariant
            net.wf(),
            run_fits(net@, from@, path@),
            i <= path@.len(),
            states@.len() == i + 1,
            states@[0]@ == from@,
            current@ == states@[i as int]@,
            forall|j: int| 0 <= j < states@.len() ==> model_run(net@, from@, path@.take(j)) == Some(#[trigger] states@[j]@),
        decreases path@.len() - i,
    {
        let t = path[i];
        proof {
            lemma_model_run_push(net@, from@, path@.take(i as int), t);
            assert(path@.take(i + 1) =~= path@.take(i as int).push(t));
            assert(model_run(net@, from@, path@.take(i as int)) == Some(current@));
            if enabled_in(net@.inputs(t.0), current@) {
                lemma_run_fits_prefix(net@, from@, path@, i + 1);
                lemma_run_fits_push(net@, from@, path@.take(i as int), t);
            }
        }
        match fire_in(net, &current, t) {
            Ok(next) => {
                let ghost prev = states@;
                states.push(next.duplicate());
                current = next;
                proof {
                    assert forall|j: int| 0 <= j < states@.len() implies model_run(net@, from@, path@.take(j)) == Some(#[trigger] states@[j]@) by {
                        if j < prev.len() {
                            assert(states@[j] == prev[j]);
                        }
                    };
                }
            },
            Err(_) => {
                return states;
            },
        }
        i += 1;
    }
    states
}

/// A replay stops before firing `t` in `x`: `t` is not enabled there, or
/// firing it would take a count past `u32::MAX`.
pub open spec fn stopped_at(nv: ModelView, x: Seq<(ModelPlaceId, u32)>, t: ModelTransitionId) -> bool {
    !enabled_in(nv.inputs(t.0), x) || !fire_fits(nv, x, t.0)
}

/// Replays `path` from `from` as [`replay_path`] does, stopping also before a
/// firing that would take a count past `u32::MAX`.
fn replay_fitting(net: &ModelNet, from: &ModelMarking, path: &[ModelTransitionId]) -> (states: Vec<ModelMarking>)
    requires
        net.wf(),
    ensures
        1 <= states@.len() <= path@.len() + 1,
        states@[0]@ == from@,
        forall|i: int| 0 <= i < states@.len() ==> model_run(net@, from@, path@.take(i)) == Some(#[trigger] states@[i]@),
        states@.len() < path@.len() + 1 ==> stopped_at(net@, states@.last()@, path@[states@.len() - 1]),
{
    let mut states: Vec<ModelMarking> = Vec::new();
    states.push(from.duplicate());
    let mut current = from.duplicate();
    proof {
        assert(path@.take(0) =~= Seq::<ModelTransitionId>::empty());
    }
    let mut i: usize = 0;
    while i < path.len()
        invariant
            net.wf(),
            i <= path@.len(),
            states@.len() == i + 1,
            states@[0]@ == from@,
            current@ == states@[i as int]@,
            forall|j: int| 0 <= j < states@.len() ==> model_run(net@, from@, path@.take(j)) == Some(#[trigger] states@[j]@),
        decreases path@.len() - i,
    {
        let t = path[i];
        proof {
            lemma_model_run_push(net@, from@, path@.take(i as int), t);
            assert(path@.take(i + 1) =~= path@.take(i as int).push(t));
            assert(model_run(net@, from@, path@.take(i as int)) == Some(current@));
        }
        if !is_enabled(net, &current, t) || !fire_fits_check(net, &current, t) {
            return states;
        }
        match fire_in(net, &current, t) {
            Ok(next) => {
                let ghost prev = states@;
                states.push(next.duplicate());
                current = next;
                proof {
                    assert forall|j: int| 0 <= j < states@.len() implies model_run(net@, from@, path@.take(j)) == Some(#[trigger] states@[j]@) by {
                        if j < prev.len() {
                            assert(states@[j] == prev[j]);
                        }
                    };
                }
            },
            Err(_) => {
                return states;
            },
        }
        i += 1;
    }
    states
}

/// A prefix of a run that fits also fits.
proof fn lemma_run_fits_prefix(net: ModelView, m: Seq<(ModelPlaceId, u32)>, ts: Seq<ModelTransitionId>, k: int)
    requires
        run_fits(net, m, ts),
        0 <= k <= ts.len(),
    ensures
        run_fits(net, m, ts.take(k)),
    decreases ts.len(),
{
    if k > 0 && ts.len() > 0 {
        assert(ts.take(k)[0] == ts[0]);
        assert(ts.take(k).drop_first() =~= ts.drop_first().take(k - 1));
        if enabled_in(net.inputs(ts[0].0), m) {
            lemma_run_fits_prefix(net, fire_result(net, m, ts[0].0), ts.drop_first(), k - 1);
        }
    }
}

/// The marking of the editable net standing for the analysis marking
/// `marking`: place `i` of the analysis net is `place_map[i]`.
pub fn to_model_marking(place_map: &Vec<ModelPlaceId>, marking: &CoreMarking) -> (r: ModelMarking)
    requires
        place_map@.len() <= marking@.len(),
        forall|i: int, j: int| 0 <= i < j < place_map@.len() ==> place_map@[i] != place_map@[j],
    ensures
        forall|k: u64| #[trigger] lookup(r@, k) == if place_keys(place_map@).contains(k) {
            Some(marking@[position(place_keys(place_map@), k)] as u32)
        } else {
            None::<u32>
        },
{
    let ghost ks = place_keys(place_map@);
    let mut r = ModelMarking::new();
    let mut i: usize = 0;
    proof {
        assert forall|a: int| 0 <= a < ks.len() implies position(ks, ks[a]) == a by {
            let c = position(ks, ks[a]);
            if c != a {
                assert(place_map@[c] == place_map@[a]) by {
                    assert(place_map@[c].0 == place_map@[a].0);
                };
            }
        };
    }
    while i < place_map.len()
        invariant
            ks == place_keys(place_map@),
            place_map@.len() <= marking@.len(),
            forall|a: int| 0 <= a < ks.len() ==> position(ks, ks[a]) == a,
            i <= ks.len(),
            forall|k: u64| #[trigger] lookup(r@, k) == if ks.take(i as int).contains(k) {
                Some(marking@[position(ks, k)] as u32)
            } else {
                None::<u32>
            },
        decreases ks.len() - i,
    {
        let p = place_map[i];
        let n = marking.tokens(PlaceId(i)) as u32;
        let ghost prev = r@;
        r.insert(p, n);
        proof {
            assert(ks[i as int] == p.0);
            assert forall|k: u64| #[trigger] lookup(r@, k) == if ks.take(i + 1).contains(k) {
                Some(marking@[position(ks, k)] as u32)
            } else {
                None::<u32>
            } by {
                let a = ks.take(i as int);
                let b = ks.take(i + 1);
                assert(b =~= a.push(p.0));
                if k != p.0 {
                    assert(lookup(r@, k) == lookup(prev, k));
                    if a.contains(k) {
                        let j = choose|j: int| 0 <= j < a.len() && a[j] == k;
                        assert(b[j] == k);
                    }
                    if b.contains(k) {
                        let j = choose|j: int| 0 <= j < b.len() && b[j] == k;
                        assert(a[j] == k);
                    }
                } else {
                    assert(b[i as int] == k);
                }
            };
        }
        i += 1;
    }
    proof {
        assert(ks.take(ks.len() as int) =~= ks);
    }
    r
}

/// Most markings [`explore`] enumerates before it gives up.
pub const MAX_STATES: usize = 200000;

/// An edge of a state graph: firing `via` in node `from` gives node `to`.
pub struct StateEdge {
    pub from: usize,
    pub via: ModelTransitionId,
    pub to: usize,
}

/// Some coverability graph of `nv` from `m0` has no place with `Omega`: the
/// exploration of [`explore`] goes past its boundedness check.
pub open spec fn km_bounded(nv: ModelView, m0: Seq<(ModelPlaceId, u32)>) -> bool {
    exists|g: GraphView<Seq<ExtendedToken>>|
        #[trigger] is_coverability_graph(analysis_view(nv), analysis_tokens(nv, m0), g)
            && unbounded_in(place_order(nv), g).len() == 0
}

/// No two edges leave the same node by the same transition.
pub open spec fn edges_unique(edges: Seq<StateEdge>) -> bool {
    forall|a: int, b: int| 0 <= a < b < edges.len()
        ==> (#[trigger] edges[a]).from != (#[trigger] edges[b]).from || edges[a].via != edges[b].via
}

/// The markings reachable from a start (node 0) and the firings between them.
pub struct StateGraph {
    pub nodes: Vec<ModelMarking>,
    pub edges: Vec<StateEdge>,
}

/// Why [`explore`] enumerated no state graph.
pub enum ExploreError {
    /// The coverability graph shows these places grow without bound.
    Unbounded(Vec<ModelPlaceId>),
    /// The net is bounded, but more than [`MAX_STATES`] markings are reachable.
    TooManyStates,
}

/// Position of a node equal to `m`, if any.
fn find_marking(nodes: &Vec<ModelMarking>, m: &ModelMarking) -> (r: Option<usize>)
    ensures
        match r {
            Some(i) => i < nodes@.len() && nodes@[i as int]@ == m@,
            None => !views(nodes@).contains(m@),
        },
{
    let mut i: usize = 0;
    while i < nodes.len()
        invariant
            i <= nodes@.len(),
            forall|j: int| 0 <= j < i ==> nodes@[j]@ != m@,
        decreases nodes@.len() - i,
    {
        if nodes[i].same(m) {
            return Some(i);
        }
        i += 1;
    }
    proof {
        if views(nodes@).contains(m@) {
            let j = choose|j: int| 0 <= j < views(nodes@).len() && views(nodes@)[j] == m@;
            assert(nodes@[j]@ == m@);
        }
    }
    None
}

/// Firing an enabled transition in a reachable marking gives a reachable marking.
pub(crate) proof fn lemma_model_reachable_step(net: ModelView, m0: Seq<(ModelPlaceId, u32)>, x: Seq<(ModelPlaceId, u32)>, t: ModelTransitionId)
    requires
        model_reachable(net, m0, x),
        enabled_in(net.inputs(t.0), x),
    ensures
        model_reachable(net, m0, fire_result(net, x, t.0)),
{
    let ts = choose|ts: Seq<ModelTransitionId>| #[trigger] model_run(net, m0, ts) == Some(x);
    lemma_model_run_push(net, m0, ts, t);
    assert(model_run(net, m0, ts.push(t)) == Some(fire_result(net, x, t.0)));
}

/// A set of key-ordered markings holding `m`, closed under firing the
/// transitions of the net, holds every marking reachable from `m`.
proof fn lemma_closed_holds_runs(net: ModelView, s: Set<Seq<(ModelPlaceId, u32)>>, m: Seq<(ModelPlaceId, u32)>, ts: Seq<ModelTransitionId>)
    requires
        s.contains(m),
        forall|x: Seq<(ModelPlaceId, u32)>| #[trigger] s.contains(x) ==> key_sorted(x),
        forall|x: Seq<(ModelPlaceId, u32)>, t: u64| #[trigger] s.contains(x) && net.transitions.dom().contains(t)
            && enabled_in(net.inputs(t), x) ==> s.contains(#[trigger] fire_result(net, x, t)),
        model_run(net, m, ts) is Some,
    ensures
        s.contains(model_run(net, m, ts).unwrap()),
    decreases ts.len(),
{
    if ts.len() > 0 {
        let t = ts[0].0;
        if !net.transitions.dom().contains(t) {
            assert(fired(net, m, t, m)) by {
                assert forall|p: ModelPlaceId| !(consumes(net.inputs(t), p) || touches(net.outputs(t), p)) by {};
            };
            lemma_fired_unique(net, m, t, m);
        }
        lemma_closed_holds_runs(net, s, fire_result(net, m, t), ts.drop_first());
    }
}

/// What [`explore`] guarantees of its result `r` for the net `nv` from `m0`.
pub open spec fn explore_holds(nv: ModelView, m0: Seq<(ModelPlaceId, u32)>, r: Result<StateGraph, ExploreError>) -> bool {
    &&& (r matches Err(ExploreError::Unbounded(_)) && no_inhibit(analysis_view(nv))
            ==> !analysis_view(nv).fits_from(analysis_tokens(nv, m0)))
    &&& (r matches Err(ExploreError::Unbounded(ps)) ==> ps@.len() > 0 && exists|g: GraphView<Seq<ExtendedToken>>|
            #[trigger] is_coverability_graph(analysis_view(nv), analysis_tokens(nv, m0), g)
                && place_keys(ps@) == unbounded_in(place_order(nv), g))
    &&& (!(r matches Err(ExploreError::Unbounded(_))) ==> exists|g: GraphView<Seq<ExtendedToken>>|
            #[trigger] is_coverability_graph(analysis_view(nv), analysis_tokens(nv, m0), g)
                && unbounded_in(place_order(nv), g).len() == 0)
    &&& (r matches Err(ExploreError::TooManyStates) ==> exists|s: Seq<Seq<(ModelPlaceId, u32)>>|
            s.len() > MAX_STATES && s.no_duplicates() && forall|i: int| 0 <= i < s.len()
                ==> #[trigger] model_reachable(nv, m0, s[i]))
    &&& (r matches Ok(g) ==> {
            &&& 1 <= g.nodes@.len() <= MAX_STATES
            &&& g.nodes@[0]@ == m0
            &&& edges_unique(g.edges@)
            &&& views(g.nodes@).no_duplicates()
            &&& forall|i: int| 0 <= i < g.nodes@.len() ==> key_sorted(#[trigger] g.nodes@[i]@)
            &&& forall|m: Seq<(ModelPlaceId, u32)>| views(g.nodes@).contains(m) <==> model_reachable(nv, m0, m)
            &&& forall|e: int| 0 <= e < g.edges@.len() ==> {
                let edge = #[trigger] g.edges@[e];
                &&& edge.from < g.nodes@.len()
                &&& edge.to < g.nodes@.len()
                &&& nv.transitions.dom().contains(edge.via.0)
                &&& enabled_in(nv.inputs(edge.via.0), g.nodes@[edge.from as int]@)
                &&& g.nodes@[edge.to as int]@ == fire_result(nv, g.nodes@[edge.from as int]@, edge.via.0)
            }
            &&& forall|i: int, t: u64| 0 <= i < g.nodes@.len() && nv.transitions.dom().contains(t)
                && #[trigger] enabled_in(nv.inputs(t), g.nodes@[i]@) ==> exists|e: int|
                0 <= e < g.edges@.len() && (#[trigger] g.edges@[e]).from == i && g.edges@[e].via.0 == t
        })
}

/// Enumerates the markings reachable from `initial` breadth first, with an
/// edge for every enabled transition of every marking. First asks the
/// coverability graph whether some place is unbounded, and fails with those
/// places if so; fails too once more than [`MAX_STATES`] markings are found.
#[verifier::spinoff_prover]
#[verifier::rlimit(80)]
pub fn explore(net: &ModelNet, initial: &ModelMarking) -> (r: Result<StateGraph, ExploreError>)
    requires
        net.wf(),
        km_fits(analysis_view(net@), extend(analysis_tokens(net@, initial@))),
        km_bounded(net@, initial@) ==> fits_everywhere(net@, initial@),
    ensures
        r matches Err(ExploreError::Unbounded(_)) && no_inhibit(analysis_view(net@))
            ==> !analysis_view(net@).fits_from(analysis_tokens(net@, initial@)),
        r matches Err(ExploreError::Unbounded(ps)) ==> ps@.len() > 0 && exists|g: GraphView<Seq<ExtendedToken>>|
            #[trigger] is_coverability_graph(analysis_view(net@), analysis_tokens(net@, initial@), g)
                && place_keys(ps@) == unbounded_in(place_order(net@), g),
        !(r matches Err(ExploreError::Unbounded(_))) ==> exists|g: GraphView<Seq<ExtendedToken>>|
            #[trigger] is_coverability_graph(analysis_view(net@), analysis_tokens(net@, initial@), g)
                && unbounded_in(place_order(net@), g).len() == 0,
        r matches Err(ExploreError::TooManyStates) ==> exists|s: Seq<Seq<(ModelPlaceId, u32)>>|
            s.len() > MAX_STATES && s.no_duplicates() && forall|i: int| 0 <= i < s.len()
                ==> #[trigger] model_reachable(net@, initial@, s[i]),
        r matches Ok(g) ==> {
            &&& 1 <= g.nodes@.len() <= MAX_STATES
            &&& g.nodes@[0]@ == initial@
            &&& edges_unique(g.edges@)
            &&& views(g.nodes@).no_duplicates()
            &&& forall|i: int| 0 <= i < g.nodes@.len() ==> key_sorted(#[trigger] g.nodes@[i]@)
            &&& forall|m: Seq<(ModelPlaceId, u32)>| views(g.nodes@).contains(m) <==> model_reachable(net@, initial@, m)
            &&& forall|e: int| 0 <= e < g.edges@.len() ==> {
                let edge = #[trigger] g.edges@[e];
                &&& edge.from < g.nodes@.len()
                &&& edge.to < g.nodes@.len()
                &&& net@.transitions.dom().contains(edge.via.0)
                &&& enabled_in(net@.inputs(edge.via.0), g.nodes@[edge.from as int]@)
                &&& g.nodes@[edge.to as int]@ == fire_result(net@, g.nodes@[edge.from as int]@, edge.via.0)
            }
            &&& forall|i: int, t: u64| 0 <= i < g.nodes@.len() && net@.transitions.dom().contains(t)
                && #[trigger] enabled_in(net@.inputs(t), g.nodes@[i]@) ==> exists|e: int|
                0 <= e < g.edges@.len() && (#[trigger] g.edges@[e]).from == i && g.edges@[e].via.0 == t
        },
        explore_holds(net@, initial@, r),
{
    let unbounded = unbounded_places(net, initial);
    if unbounded.len() > 0 {
        return Err(ExploreError::Unbounded(unbounded));
    }
    let ghost nv = net@;
    let ghost m0 = initial@;
    proof {
        assert(unbounded@.len() == 0);
        assert(km_bounded(nv, m0));
        assert(fits_everywhere(nv, m0));
    }
    let mut nodes: Vec<ModelMarking> = Vec::new();
    nodes.push(initial.duplicate());
    let mut edges: Vec<StateEdge> = Vec::new();
    let mut head: usize = 0;
    let _ = initial.len();
    proof {
        assert(model_run(nv, m0, Seq::<ModelTransitionId>::empty()) == Some(m0));
        assert(views(nodes@) =~= seq![m0]);
    }
    while head < nodes.len()
        invariant
            net.wf(),
            nv == net@,
            m0 == initial@,
            exists|g: GraphView<Seq<ExtendedToken>>|
                #[trigger] is_coverability_graph(analysis_view(nv), analysis_tokens(nv, m0), g)
                    && unbounded_in(place_order(nv), g).len() == 0,
            fits_everywhere(nv, m0),
            1 <= nodes@.len() <= MAX_STATES,
            nodes@[0]@ == m0,
            head <= nodes@.len(),
            views(nodes@).no_duplicates(),
            forall|i: int| 0 <= i < nodes@.len() ==> #[trigger] model_reachable(nv, m0, nodes@[i]@),
            forall|i: int| 0 <= i < nodes@.len() ==> key_sorted(#[trigger] nodes@[i]@),
            edges_unique(edges@),
            forall|e: int| 0 <= e < edges@.len() ==> {
                let edge = #[trigger] edges@[e];
                &&& edge.from < head
                &&& edge.to < nodes@.len()
                &&& nv.transitions.dom().contains(edge.via.0)
                &&& enabled_in(nv.inputs(edge.via.0), nodes@[edge.from as int]@)
                &&& nodes@[edge.to as int]@ == fire_result(nv, nodes@[edge.from as int]@, edge.via.0)
            },
            forall|i: int, t: u64| 0 <= i < head && nv.transitions.dom().contains(t)
                && #[trigger] enabled_in(nv.inputs(t), nodes@[i]@) ==> exists|e: int|
                0 <= e < edges@.len() && (#[trigger] edges@[e]).from == i && edges@[e].via.0 == t,
        decreases MAX_STATES - head,
    {
        let marking = nodes[head].duplicate();
        let enabled = enabled_transitions(net, &marking);
        let mut k: usize = 0;
        while k < enabled.len()
            invariant
                net.wf(),
                nv == net@,
                m0 == initial@,
                exists|g: GraphView<Seq<ExtendedToken>>|
                #[trigger] is_coverability_graph(analysis_view(nv), analysis_tokens(nv, m0), g)
                    && unbounded_in(place_order(nv), g).len() == 0,
                fits_everywhere(nv, m0),
                1 <= nodes@.len() <= MAX_STATES,
                nodes@[0]@ == m0,
                head < nodes@.len(),
                marking@ == nodes@[head as int]@,
                views(nodes@).no_duplicates(),
                forall|i: int| 0 <= i < nodes@.len() ==> #[trigger] model_reachable(nv, m0, nodes@[i]@),
                forall|i: int| 0 <= i < nodes@.len() ==> key_sorted(#[trigger] nodes@[i]@),
                forall|t: ModelTransitionId| #[trigger] enabled@.contains(t) <==> nv.transitions.dom().contains(t.0)
                    && enabled_in(nv.inputs(t.0), marking@),
                k <= enabled@.len(),
                forall|i: int, j: int| 0 <= i < j < enabled@.len() ==> slot_index(enabled@[i].0) < slot_index(enabled@[j].0),
                edges_unique(edges@),
                forall|e: int| 0 <= e < edges@.len() && (#[trigger] edges@[e]).from == head ==> exists|kk: int|
                    0 <= kk < k && enabled@[kk] == edges@[e].via,
                forall|e: int| 0 <= e < edges@.len() ==> {
                    let edge = #[trigger] edges@[e];
                    &&& edge.from <= head
                    &&& edge.to < nodes@.len()
                    &&& nv.transitions.dom().contains(edge.via.0)
                    &&& enabled_in(nv.inputs(edge.via.0), nodes@[edge.from as int]@)
                    &&& nodes@[edge.to as int]@ == fire_result(nv, nodes@[edge.from as int]@, edge.via.0)
                },
                forall|i: int, t: u64| 0 <= i < head && nv.transitions.dom().contains(t)
                    && #[trigger] enabled_in(nv.inputs(t), nodes@[i]@) ==> exists|e: int|
                    0 <= e < edges@.len() && (#[trigger] edges@[e]).from == i && edges@[e].via.0 == t,
                forall|kk: int| #![trigger enabled@[kk]] 0 <= kk < k ==> exists|e: int|
                    0 <= e < edges@.len() && (#[trigger] edges@[e]).from == head && edges@[e].via == enabled@[kk],
            decreases enabled@.len() - k,
        {
            let t = enabled[k];
            proof {
                assert(enabled@.contains(t));
                assert(model_reachable(nv, m0, marking@));
                assert(fire_fits(nv, marking@, t.0));
            }
            let next = match fire_in(net, &marking, t) {
                Ok(next) => next,
                Err(_) => {
                    return Err(ExploreError::TooManyStates);
                },
            };
            let _ = next.len();
            proof {
                lemma_model_reachable_step(nv, m0, marking@, t);
            }
            let to = match find_marking(&nodes, &next) {
                Some(existing) => existing,
                None => {
                    if nodes.len() >= MAX_STATES {
                        proof {
                            let s = views(nodes@).push(next@);
                            assert(s.no_duplicates()) by {
                                assert forall|a: int, b: int| 0 <= a < b < s.len() implies s[a] != s[b] by {
                                    if b == s.len() - 1 {
                                        assert(views(nodes@).contains(s[a]));
                                    }
                                };
                            };
                            assert forall|i: int| 0 <= i < s.len() implies #[trigger] model_reachable(nv, m0, s[i]) by {
                                if i < nodes@.len() {
                                    assert(s[i] == nodes@[i]@);
                                }
                            };
                        }
                        return Err(ExploreError::TooManyStates);
                    }
                    let ghost prev = nodes@;
                    nodes.push(next);
                    proof {
                        assert(views(nodes@) =~= views(prev).push(nodes@[prev.len() as int]@));
                        assert(views(nodes@).no_duplicates()) by {
                            assert forall|a: int, b: int| 0 <= a < b < views(nodes@).len() implies views(nodes@)[a] != views(nodes@)[b] by {
                                if b == views(nodes@).len() - 1 {
                                    assert(views(prev).contains(views(nodes@)[a]));
                                }
                            };
                        };
                        assert forall|i: int| 0 <= i < nodes@.len() implies #[trigger] model_reachable(nv, m0, nodes@[i]@) by {
                            if i < prev.len() {
                                assert(nodes@[i] == prev[i]);
                            }
                        };
                        assert forall|i: int| 0 <= i < nodes@.len() implies key_sorted(#[trigger] nodes@[i]@) by {
                            if i < prev.len() {
                                assert(nodes@[i] == prev[i]);
                            }
                        };
                        assert forall|e: int| 0 <= e < edges@.len() implies {
                            let edge = #[trigger] edges@[e];
                            &&& edge.from <= head
                            &&& edge.to < nodes@.len()
                            &&& nv.transitions.dom().contains(edge.via.0)
                            &&& enabled_in(nv.inputs(edge.via.0), nodes@[edge.from as int]@)
                            &&& nodes@[edge.to as int]@ == fire_result(nv, nodes@[edge.from as int]@, edge.via.0)
                        } by {
                            let edge = edges@[e];
                            assert(nodes@[edge.from as int] == prev[edge.from as int]);
                            assert(nodes@[edge.to as int] == prev[edge.to as int]);
                        };
                        assert forall|i: int, tt: u64| 0 <= i < head && nv.transitions.dom().contains(tt)
                            && #[trigger] enabled_in(nv.inputs(tt), nodes@[i]@) implies exists|e: int|
                            0 <= e < edges@.len() && (#[trigger] edges@[e]).from == i && edges@[e].via.0 == tt by {
                            assert(nodes@[i] == prev[i]);
                        };
                    }
                    nodes.len() - 1
                },
            };
            let ghost prev_edges = edges@;
            edges.push(StateEdge { from: head, via: t, to });
            proof {
                assert forall|a: int, b: int| 0 <= a < b < edges@.len()
                    implies (#[trigger] edges@[a]).from != (#[trigger] edges@[b]).from || edges@[a].via != edges@[b].via by {
                    assert(edges@[a] == prev_edges[a]);
                    if b < prev_edges.len() {
                        assert(edges@[b] == prev_edges[b]);
                    } else if prev_edges[a].from == head {
                        let kk = choose|kk: int| 0 <= kk < k && enabled@[kk] == prev_edges[a].via;
                        assert(slot_index(enabled@[kk].0) < slot_index(enabled@[k as int].0));
                    }
                };
                assert forall|e: int| 0 <= e < edges@.len() && (#[trigger] edges@[e]).from == head implies exists|kk: int|
                    0 <= kk < k + 1 && enabled@[kk] == edges@[e].via by {
                    if e < prev_edges.len() {
                        assert(edges@[e] == prev_edges[e]);
                        let kk = choose|kk: int| 0 <= kk < k && enabled@[kk] == prev_edges[e].via;
                    } else {
                        assert(enabled@[k as int] == edges@[e].via);
                    }
                };
                assert forall|e: int| 0 <= e < edges@.len() implies {
                    let edge = #[trigger] edges@[e];
                    &&& edge.from <= head
                    &&& edge.to < nodes@.len()
                    &&& nv.transitions.dom().contains(edge.via.0)
                    &&& enabled_in(nv.inputs(edge.via.0), nodes@[edge.from as int]@)
                    &&& nodes@[edge.to as int]@ == fire_result(nv, nodes@[edge.from as int]@, edge.via.0)
                } by {
                    if e < prev_edges.len() {
                        assert(edges@[e] == prev_edges[e]);
                    }
                };
                assert forall|i: int, tt: u64| 0 <= i < head && nv.transitions.dom().contains(tt)
                    && #[trigger] enabled_in(nv.inputs(tt), nodes@[i]@) implies exists|e: int|
                    0 <= e < edges@.len() && (#[trigger] edges@[e]).from == i && edges@[e].via.0 == tt by {
                    let e = choose|e: int| 0 <= e < prev_edges.len() && (#[trigger] prev_edges[e]).from == i && prev_edges[e].via.0 == tt;
                    assert(edges@[e] == prev_edges[e]);
                };
                assert forall|kk: int| #![trigger enabled@[kk]] 0 <= kk < k + 1 implies exists|e: int|
                    0 <= e < edges@.len() && (#[trigger] edges@[e]).from == head && edges@[e].via == enabled@[kk] by {
                    if kk < k {
                        let e = choose|e: int| 0 <= e < prev_edges.len() && (#[trigger] prev_edges[e]).from == head && prev_edges[e].via == enabled@[kk];
                        assert(edges@[e] == prev_edges[e]);
                    } else {
                        assert(edges@[prev_edges.len() as int].via == enabled@[kk]);
                    }
                };
            }
            k += 1;
        }
        proof {
            assert forall|i: int, tt: u64| 0 <= i < head + 1 && nv.transitions.dom().contains(tt)
                && #[trigger] enabled_in(nv.inputs(tt), nodes@[i]@) implies exists|e: int|
                0 <= e < edges@.len() && (#[trigger] edges@[e]).from == i && edges@[e].via.0 == tt by {
                if i == head {
                    assert(enabled@.contains(ModelTransitionId(tt)));
                    let kk = choose|kk: int| 0 <= kk < enabled@.len() && enabled@[kk] == ModelTransitionId(tt);
                    let e = choose|e: int| 0 <= e < edges@.len() && (#[trigger] edges@[e]).from == head && edges@[e].via == enabled@[kk];
                }
            };
        }
        head += 1;
    }
    proof {
        let s = views(nodes@).to_set();
        assert forall|x: Seq<(ModelPlaceId, u32)>| #[trigger] s.contains(x) implies key_sorted(x) by {
            let i = choose|i: int| 0 <= i < views(nodes@).len() && views(nodes@)[i] == x;
            assert(nodes@[i]@ == x);
        };
        assert forall|x: Seq<(ModelPlaceId, u32)>, t: u64| #[trigger] s.contains(x) && nv.transitions.dom().contains(t)
            && enabled_in(nv.inputs(t), x) implies s.contains(#[trigger] fire_result(nv, x, t)) by {
            let i = choose|i: int| 0 <= i < views(nodes@).len() && views(nodes@)[i] == x;
            assert(nodes@[i]@ == x);
            assert(enabled_in(nv.inputs(t), nodes@[i]@));
            let e = choose|e: int| 0 <= e < edges@.len() && (#[trigger] edges@[e]).from == i && edges@[e].via.0 == t;
            let edge = edges@[e];
            assert(views(nodes@)[edge.to as int] == nodes@[edge.to as int]@);
        };
        assert forall|m: Seq<(ModelPlaceId, u32)>| views(nodes@).contains(m) <==> model_reachable(nv, m0, m) by {
            if views(nodes@).contains(m) {
                let i = choose|i: int| 0 <= i < views(nodes@).len() && views(nodes@)[i] == m;
                assert(nodes@[i]@ == m);
            }
            if model_reachable(nv, m0, m) {
                let ts = choose|ts: Seq<ModelTransitionId>| #[trigger] model_run(nv, m0, ts) == Some(m);
                assert(views(nodes@)[0] == m0);
                lemma_closed_holds_runs(nv, s, m0, ts);
            }
        };
        assert forall|i: int, t: u64| 0 <= i < nodes@.len() && nv.transitions.dom().contains(t)
            && #[trigger] enabled_in(nv.inputs(t), nodes@[i]@) implies exists|e: int|
            0 <= e < edges@.len() && (#[trigger] edges@[e]).from == i && edges@[e].via.0 == t by {
            assert(i < head);
        };
    }
    let g = StateGraph { nodes, edges };
    proof {
        assert(g.nodes@ == nodes@);
        assert(g.edges@ == edges@);
    }
    Ok(g)
}

/// From a marking reachable from `m0`, every run fits when every firing does.
pub(crate) proof fn lemma_fits_run(net: ModelView, m0: Seq<(ModelPlaceId, u32)>, m: Seq<(ModelPlaceId, u32)>, ts: Seq<ModelTransitionId>)
    requires
        fits_everywhere(net, m0),
        model_reachable(net, m0, m),
    ensures
        run_fits(net, m, ts),
    decreases ts.len(),
{
    if ts.len() > 0 && enabled_in(net.inputs(ts[0].0), m) {
        assert(fire_fits(net, m, ts[0].0));
        lemma_model_reachable_step(net, m0, m, ts[0]);
        lemma_fits_run(net, m0, fire_result(net, m, ts[0].0), ts.drop_first());
    }
}

/// A shortest firing sequence from `from` to `target` over the state graph that
/// [`explore`] enumerates, with every marking along it (`from` first), or `None`
/// when [`explore`] fails or `target` is not reachable.
pub fn path_to(net: &ModelNet, from: &ModelMarking, target: &ModelMarking) -> (r: Option<(Vec<ModelMarking>, Vec<ModelTransitionId>)>)
    requires
        net.wf(),
        km_fits(analysis_view(net@), extend(analysis_tokens(net@, from@))),
        km_bounded(net@, from@) ==> fits_everywhere(net@, from@),
    ensures
        r matches Some(x) ==> {
            &&& model_run(net@, from@, x.1@) == Some(target@)
            &&& x.0@.len() == x.1@.len() + 1
            &&& forall|i: int| 0 <= i < x.0@.len() ==> model_run(net@, from@, x.1@.take(i)) == Some(#[trigger] x.0@[i]@)
            &&& forall|q: Seq<ModelTransitionId>| #[trigger] model_run(net@, from@, q) == Some(target@) ==> x.1@.len() <= q.len()
        },
        r is Some ==> km_bounded(net@, from@) && exists|s: Seq<Seq<(ModelPlaceId, u32)>>|
            s.len() <= MAX_STATES && s.no_duplicates() && forall|m: Seq<(ModelPlaceId, u32)>|
                #[trigger] s.contains(m) <==> model_reachable(net@, from@, m),
        r is None ==> {
            ||| !model_reachable(net@, from@, target@)
            ||| exists|g: GraphView<Seq<ExtendedToken>>|
                #[trigger] is_coverability_graph(analysis_view(net@), analysis_tokens(net@, from@), g)
                    && unbounded_in(place_order(net@), g).len() > 0
            ||| exists|s: Seq<Seq<(ModelPlaceId, u32)>>| s.len() > MAX_STATES && s.no_duplicates()
                && forall|i: int| 0 <= i < s.len() ==> #[trigger] model_reachable(net@, from@, s[i])
        },
{
    let ghost nv = net@;
    let ghost m0 = from@;
    let graph = match explore(net, from) {
        Ok(g) => g,
        Err(e) => {
            proof {
                if let ExploreError::Unbounded(ps) = e {
                    let g = choose|g: GraphView<Seq<ExtendedToken>>|
                        #[trigger] is_coverability_graph(analysis_view(nv), analysis_tokens(nv, m0), g)
                            && place_keys(ps@) == unbounded_in(place_order(nv), g);
                    assert(place_keys(ps@).len() == ps@.len());
                }
            }
            return None;
        },
    };
    proof {
        assert(km_bounded(nv, m0));
        let s = views(graph.nodes@);
        assert(s.len() <= MAX_STATES && s.no_duplicates() && forall|m: Seq<(ModelPlaceId, u32)>|
            #[trigger] s.contains(m) <==> model_reachable(nv, m0, m));
    }
    let target_idx = match find_marking(&graph.nodes, target) {
        Some(i) => i,
        None => {
            return None;
        },
    };
    let n = graph.nodes.len();
    let ghost nodes = graph.nodes@;
    let ghost edges = graph.edges@;
    let mut order: Vec<usize> = Vec::new();
    order.push(0);
    let mut parent: Vec<Option<(ModelTransitionId, usize)>> = Vec::new();
    parent.push(None);
    let mut seen: Vec<bool> = Vec::new();
    let mut z: usize = 0;
    while z < n
        invariant
            z <= n,
            seen@.len() == z,
            forall|k: int| 0 <= k < z ==> !seen@[k],
        decreases n - z,
    {
        seen.push(false);
        z += 1;
    }
    seen.set(0, true);
    let mut found: Option<usize> = if target_idx == 0 {
        Some(0)
    } else {
        None
    };
    proof {
        assert(bfs_path(parent@, 0) =~= Seq::<ModelTransitionId>::empty());
        assert(model_run(nv, m0, Seq::<ModelTransitionId>::empty()) == Some(m0));
        let vn = views(nodes);
        assert forall|i: int| 0 <= i < vn.len() implies key_sorted(#[trigger] vn[i]) by {
            assert(vn[i] == nodes[i]@);
        };
        assert forall|e: int| 0 <= e < edges.len() implies {
            let edge = #[trigger] edges[e];
            &&& edge.from < vn.len()
            &&& edge.to < vn.len()
            &&& vn[edge.to as int] == fire_result(nv, vn[edge.from as int], edge.via.0)
        } by {
            assert(vn[edges[e].to as int] == nodes[edges[e].to as int]@);
            assert(vn[edges[e].from as int] == nodes[edges[e].from as int]@);
        };
        assert forall|i: int, t: u64| 0 <= i < vn.len() && nv.transitions.dom().contains(t)
            && #[trigger] enabled_in(nv.inputs(t), vn[i]) implies exists|e: int|
            0 <= e < edges.len() && (#[trigger] edges[e]).from == i && edges[e].via.0 == t by {
            assert(vn[i] == nodes[i]@);
        };
        assert(vn[0] == nodes[0]@);
        assert(explored(nv, m0, vn, edges));
        lemma_order_start(edges, order@, parent@);
        assert(bfs_depth(parent@, 0) == 0);
        assert forall|k: int| 0 <= k < n implies seen@[k] == (exists|j: int| 0 <= j < order@.len() && order@[j] == k) by {
            if k == 0 {
                assert(order@[0] == 0);
            }
        };
    }
    let mut head: usize = 0;
    while head < order.len() && found.is_none()
        invariant
            net.wf(),
            nv == net@,
            m0 == from@,
            nodes == graph.nodes@,
            edges == graph.edges@,
            n == nodes.len(),
            n >= 1,
            forall|i: int| 0 <= i < n ==> key_sorted(#[trigger] nodes[i]@),
            nodes[0]@ == m0,
            target_idx < n,
            nodes[target_idx as int]@ == target@,
            forall|e: int| 0 <= e < edges.len() ==> {
                let edge = #[trigger] edges[e];
                &&& edge.from < nodes.len()
                &&& edge.to < nodes.len()
                &&& nv.transitions.dom().contains(edge.via.0)
                &&& enabled_in(nv.inputs(edge.via.0), nodes[edge.from as int]@)
                &&& nodes[edge.to as int]@ == fire_result(nv, nodes[edge.from as int]@, edge.via.0)
            },
            order@.len() == parent@.len(),
            order@.len() >= 1,
            order@[0] == 0,
            order@.no_duplicates(),
            seen@.len() == n,
            head <= order@.len(),
            forall|j: int| 0 <= j < order@.len() ==> (#[trigger] order@[j]) < n,
            forall|k: int| 0 <= k < n ==> seen@[k] == (exists|j: int| 0 <= j < order@.len() && order@[j] == k),
            forall|j: int| 0 <= j < parent@.len() && (#[trigger] parent@[j]) is Some ==> link_from(parent@[j]) < j,
            forall|j: int| 0 <= j < order@.len() ==> model_run(nv, m0, bfs_path(parent@, j)) == Some(nodes[#[trigger] order@[j] as int]@),
            found matches Some(pos) ==> pos < order@.len() && order@[pos as int] == target_idx,
            found is None ==> !seen@[target_idx as int],
            found is None ==> forall|j: int, e: int| 0 <= j < head && 0 <= e < edges.len() && (#[trigger] edges[e]).from == #[trigger] order@[j]
                ==> seen@[edges[e].to as int],
            explored(nv, m0, views(nodes), edges),
            found is None ==> order_layered(edges, order@, parent@, head as int),
            found is None && head < order@.len() ==> forall|j: int| 0 <= j < order@.len() ==> #[trigger] bfs_depth(parent@, j) <= bfs_depth(parent@, head as int) + 1,
            found matches Some(pos) ==> forall|q: Seq<ModelTransitionId>| #[trigger] model_run(nv, m0, q) == Some(target@) ==> bfs_depth(parent@, pos as int) <= q.len(),
        decreases n - head, (if found is None { 1int } else { 0int }),
    {
        proof {
            vstd::set_lib::range_set_properties::<usize>(0, n);
            assert forall|j: int| 0 <= j < order@.len() implies Set::<usize>::range(0, n).contains(#[trigger] order@[j]) by {};
            lemma_unique_within(order@, Set::<usize>::range(0, n));
        }
        let idx = order[head];
        let mut e: usize = 0;
        while e < graph.edges.len() && found.is_none()
            invariant
                nv == net@,
                m0 == from@,
                nodes == graph.nodes@,
                edges == graph.edges@,
                n == nodes.len(),
                target_idx < n,
                forall|ee: int| 0 <= ee < edges.len() ==> {
                    let edge = #[trigger] edges[ee];
                    &&& edge.from < nodes.len()
                    &&& edge.to < nodes.len()
                    &&& nv.transitions.dom().contains(edge.via.0)
                    &&& enabled_in(nv.inputs(edge.via.0), nodes[edge.from as int]@)
                    &&& nodes[edge.to as int]@ == fire_result(nv, nodes[edge.from as int]@, edge.via.0)
                },
                order@.len() == parent@.len(),
                order@.len() >= 1,
                order@[0] == 0,
                order@.no_duplicates(),
                seen@.len() == n,
                head < order@.len(),
                idx == order@[head as int],
                forall|j: int| 0 <= j < order@.len() ==> (#[trigger] order@[j]) < n,
                forall|k: int| 0 <= k < n ==> seen@[k] == (exists|j: int| 0 <= j < order@.len() && order@[j] == k),
                forall|j: int| 0 <= j < parent@.len() && (#[trigger] parent@[j]) is Some ==> link_from(parent@[j]) < j,
                forall|j: int| 0 <= j < order@.len() ==> model_run(nv, m0, bfs_path(parent@, j)) == Some(nodes[#[trigger] order@[j] as int]@),
                found matches Some(pos) ==> pos < order@.len() && order@[pos as int] == target_idx,
                found is None ==> !seen@[target_idx as int],
                found is None ==> forall|j: int, ee: int| 0 <= j < head && 0 <= ee < edges.len() && (#[trigger] edges[ee]).from == #[trigger] order@[j]
                    ==> seen@[edges[ee].to as int],
                found is None ==> forall|ee: int| 0 <= ee < e && (#[trigger] edges[ee]).from == idx ==> seen@[edges[ee].to as int],
                e <= edges.len(),
                explored(nv, m0, views(nodes), edges),
                nodes[target_idx as int]@ == target@,
                order_layered(edges, order@, parent@, head as int),
                forall|j: int| 0 <= j < order@.len() ==> #[trigger] bfs_depth(parent@, j) <= bfs_depth(parent@, head as int) + 1,
                forall|ee: int| 0 <= ee < e && (#[trigger] edges[ee]).from == idx ==> order_found(order@, parent@, edges[ee].to, bfs_depth(parent@, head as int) + 1),
                found matches Some(pos) ==> forall|q: Seq<ModelTransitionId>| #[trigger] model_run(nv, m0, q) == Some(target@) ==> bfs_depth(parent@, pos as int) <= q.len(),
            decreases edges.len() - e, (if found is None { 1int } else { 0int }),
        {
            let edge = &graph.edges[e];
            if edge.from == idx && !seen[edge.to] {
                let ghost old_order = order@;
                let ghost old_parent = parent@;
                let ghost old_seen = seen@;
                seen.set(edge.to, true);
                order.push(edge.to);
                parent.push(Some((edge.via, head)));
                proof {
                    let last = order@.len() - 1;
                    assert(order@.no_duplicates()) by {
                        assert forall|a: int, b: int| 0 <= a < b < order@.len() implies order@[a] != order@[b] by {
                            if b == last {
                                assert(order@[a] == old_order[a]);
                                if old_order[a] == edge.to {
                                    assert(old_seen[edge.to as int]);
                                }
                            } else {
                                assert(order@[a] == old_order[a] && order@[b] == old_order[b]);
                            }
                        };
                    };
                    assert forall|j: int| 0 <= j < order@.len() implies (#[trigger] order@[j]) < n by {
                        if j < last {
                            assert(order@[j] == old_order[j]);
                        }
                    };
                    assert forall|k: int| 0 <= k < n implies seen@[k] == (exists|j: int| 0 <= j < order@.len() && order@[j] == k) by {
                        if k == edge.to {
                            assert(order@[last] == k);
                        } else {
                            assert(seen@[k] == old_seen[k]);
                            if exists|j: int| 0 <= j < old_order.len() && old_order[j] == k {
                                let j = choose|j: int| 0 <= j < old_order.len() && old_order[j] == k;
                                assert(order@[j] == k);
                            }
                            if exists|j: int| 0 <= j < order@.len() && order@[j] == k {
                                let j = choose|j: int| 0 <= j < order@.len() && order@[j] == k;
                                assert(j != last);
                                assert(old_order[j] == k);
                            }
                        }
                    };
                    assert forall|j: int| 0 <= j < parent@.len() && (#[trigger] parent@[j]) is Some implies link_from(parent@[j]) < j by {
                        if j < last {
                            assert(parent@[j] == old_parent[j]);
                        }
                    };
                    assert forall|j: int| 0 <= j < order@.len() implies model_run(nv, m0, bfs_path(parent@, j)) == Some(nodes[#[trigger] order@[j] as int]@) by {
                        lemma_bfs_path_prefix(old_parent, parent@, head as int);
                        if j < last {
                            lemma_bfs_path_prefix(old_parent, parent@, j);
                            assert(order@[j] == old_order[j]);
                        } else {
                            assert(bfs_path(parent@, j) == bfs_path(parent@, head as int).push(edge.via));
                            assert(order@[head as int] == old_order[head as int]);
                            lemma_model_run_push(nv, m0, bfs_path(old_parent, head as int), edge.via);
                        }
                    };
                    assert forall|j: int, ee: int| 0 <= j < head && 0 <= ee < edges.len() && (#[trigger] edges[ee]).from == #[trigger] order@[j]
                        implies seen@[edges[ee].to as int] by {
                        assert(order@[j] == old_order[j]);
                        if edges[ee].to != edge.to {
                            assert(seen@[edges[ee].to as int] == old_seen[edges[ee].to as int]);
                        }
                    };
                    assert forall|ee: int| 0 <= ee < e + 1 && (#[trigger] edges[ee]).from == idx implies seen@[edges[ee].to as int] by {
                        if edges[ee].to != edge.to {
                            assert(seen@[edges[ee].to as int] == old_seen[edges[ee].to as int]);
                        }
                    };
                    lemma_order_push(edges, old_order, old_parent, head, edge.to, edge.via);
                    assert(order@ == old_order.push(edge.to));
                    assert(parent@ == old_parent.push(Some((edge.via, head))));
                    assert forall|ee: int| 0 <= ee < e + 1 && (#[trigger] edges[ee]).from == idx
                        implies order_found(order@, parent@, edges[ee].to, bfs_depth(parent@, head as int) + 1) by {
                        if ee < e {
                            assert(order_found(old_order, old_parent, edges[ee].to, bfs_depth(old_parent, head as int) + 1));
                            let i = choose|i: int| 0 <= i < old_order.len() && old_order[i] == edges[ee].to
                                && bfs_depth(old_parent, i) <= bfs_depth(old_parent, head as int) + 1;
                            assert(order@[i] == old_order[i]);
                        } else {
                            assert(order@[last] == edges[ee].to);
                        }
                    };
                }
                if edge.to == target_idx {
                    found = Some(order.len() - 1);
                    proof {
                        let pos = order@.len() - 1;
                        assert forall|q: Seq<ModelTransitionId>| #[trigger] model_run(nv, m0, q) == Some(target@)
                            implies bfs_depth(parent@, pos) <= q.len() by {
                            if q.len() < bfs_depth(parent@, pos) {
                                lemma_order_walk_bound(nv, m0, views(nodes), edges, order@, parent@, head as int, q, target@);
                                let i = choose|i: int| 0 <= i < order@.len() && views(nodes)[order@[i] as int] == target@ && bfs_depth(parent@, i) <= q.len();
                                assert(views(nodes)[target_idx as int] == nodes[target_idx as int]@);
                                assert(order@[i] == target_idx);
                                assert(order@[pos] == target_idx);
                            }
                        };
                    }
                }
            } else if edge.from == idx {
                proof {
                    assert(seen@[edge.to as int]);
                    let j = choose|j: int| 0 <= j < order@.len() && order@[j] == edge.to;
                    assert(bfs_depth(parent@, j) <= bfs_depth(parent@, head as int) + 1);
                    assert(order_found(order@, parent@, edge.to, bfs_depth(parent@, head as int) + 1));
                }
            }
            e += 1;
        }
        proof {
            if found is None {
                assert forall|j: int, ee: int| 0 <= j < head + 1 && 0 <= ee < edges.len() && (#[trigger] edges[ee]).from == #[trigger] order@[j]
                    implies seen@[edges[ee].to as int] by {
                    if j == head {
                        assert(edges[ee].from == idx);
                    }
                };
                lemma_order_expanded(edges, order@, parent@, head as int);
            }
        }
        head += 1;
    }
    match found {
        Some(pos) => {
            let ts = bfs_reconstruct(&parent, pos);
            proof {
                assert(model_run(nv, m0, ts@) == Some(target@));
                assert(ts@.len() == bfs_depth(parent@, pos as int));
                lemma_fits_run(nv, m0, m0, ts@);
                assert(model_run(nv, m0, Seq::<ModelTransitionId>::empty()) == Some(m0));
            }
            let states = replay_path(net, from, ts.as_slice());
            proof {
                if states@.len() < ts@.len() + 1 {
                    lemma_model_run_prefix_some(nv, m0, ts@, states@.len() as int);
                }
                assert(ts@.take(ts@.len() as int) =~= ts@);
            }
            Some((states, ts))
        },
        None => {
            proof {
                assert(head == order@.len());
                let s = Set::new(|x: Seq<(ModelPlaceId, u32)>| exists|k: int| 0 <= k < n && seen@[k] && nodes[k]@ == x);
                assert forall|x: Seq<(ModelPlaceId, u32)>| #[trigger] s.contains(x) implies key_sorted(x) by {
                    let k = choose|k: int| 0 <= k < n && seen@[k] && nodes[k]@ == x;
                };
                assert forall|x: Seq<(ModelPlaceId, u32)>, t: u64| #[trigger] s.contains(x) && nv.transitions.dom().contains(t)
                    && enabled_in(nv.inputs(t), x) implies s.contains(#[trigger] fire_result(nv, x, t)) by {
                    let k = choose|k: int| 0 <= k < n && seen@[k] && nodes[k]@ == x;
                    let ee = choose|ee: int| 0 <= ee < edges.len() && (#[trigger] edges[ee]).from == k && edges[ee].via.0 == t;
                    let j = choose|j: int| 0 <= j < order@.len() && order@[j] == k;
                    assert(edges[ee].from == order@[j]);
                    assert(seen@[edges[ee].to as int]);
                };
                assert(s.contains(m0)) by {
                    assert(seen@[0]) by {
                        assert(order@[0] == 0);
                    };
                };
                if model_reachable(nv, m0, target@) {
                    let ts = choose|ts: Seq<ModelTransitionId>| #[trigger] model_run(nv, m0, ts) == Some(target@);
                    lemma_closed_holds_runs(nv, s, m0, ts);
                    let k = choose|k: int| 0 <= k < n && seen@[k] && nodes[k]@ == target@;
                    assert(views(nodes)[k] == views(nodes)[target_idx as int]);
                    assert(k == target_idx);
                }
            }
            None
        },
    }
}

/// The markings `nodes` and firings `edges` of a search from `m0`: the start
/// first, each reachable marking once, in key order, each edge a firing, and an
/// edge for every transition enabled at a node.
pub open spec fn explored(net: ModelView, m0: Seq<(ModelPlaceId, u32)>, nodes: Seq<Seq<(ModelPlaceId, u32)>>, edges: Seq<StateEdge>) -> bool {
    &&& nodes.len() >= 1
    &&& nodes[0] == m0
    &&& nodes.no_duplicates()
    &&& forall|i: int| 0 <= i < nodes.len() ==> key_sorted(#[trigger] nodes[i])
    &&& forall|e: int| 0 <= e < edges.len() ==> {
        let edge = #[trigger] edges[e];
        &&& edge.from < nodes.len()
        &&& edge.to < nodes.len()
        &&& nodes[edge.to as int] == fire_result(net, nodes[edge.from as int], edge.via.0)
    }
    &&& forall|i: int, t: u64| 0 <= i < nodes.len() && net.transitions.dom().contains(t)
        && #[trigger] enabled_in(net.inputs(t), nodes[i]) ==> exists|e: int|
        0 <= e < edges.len() && (#[trigger] edges[e]).from == i && edges[e].via.0 == t
}

/// Node `k` has been found at a position whose depth is at most `d`.
pub open spec fn order_found(order: Seq<usize>, parent: Seq<Option<(ModelTransitionId, usize)>>, k: usize, d: int) -> bool {
    exists|i: int| 0 <= i < order.len() && order[i] == k && bfs_depth(parent, i) <= d
}

/// A breadth-first search over `edges` from node 0 that has found the nodes
/// `order`, each with its parent link, and expanded the first `head` of them:
/// depths never decrease along `order`, and every edge out of an expanded
/// node leads to a node found at most one level below it.
#[verifier::opaque]
pub open spec fn order_layered(edges: Seq<StateEdge>, order: Seq<usize>, parent: Seq<Option<(ModelTransitionId, usize)>>, head: int) -> bool {
    &&& order.len() == parent.len()
    &&& order.len() >= 1
    &&& order[0] == 0
    &&& parent[0] is None
    &&& 0 <= head <= order.len()
    &&& forall|i: int, j: int| 0 <= i <= j < order.len() ==> #[trigger] bfs_depth(parent, i) <= #[trigger] bfs_depth(parent, j)
    &&& forall|j: int, e: int| 0 <= j < head && 0 <= e < edges.len() && (#[trigger] edges[e]).from == #[trigger] order[j]
        ==> order_found(order, parent, edges[e].to, bfs_depth(parent, j) + 1)
}

/// Firing a transition the net does not hold leaves a marking in key order as it is.
proof fn lemma_fire_outside(net: ModelView, m: Seq<(ModelPlaceId, u32)>, t: u64)
    requires
        key_sorted(m),
        !net.transitions.dom().contains(t),
    ensures
        fire_result(net, m, t) == m,
{
    assert(net.inputs(t) =~= Seq::<(ModelPlaceId, ModelArcKind)>::empty());
    assert(net.outputs(t) =~= Seq::<(ModelPlaceId, u32)>::empty());
    assert forall|p: ModelPlaceId| !consumes(net.inputs(t), p) && !touches(net.outputs(t), p) by {};
    assert(fired(net, m, t, m));
    let r = fire_result(net, m, t);
    assert(key_sorted(r) && fired(net, m, t, r));
    assert forall|k: u64| #[trigger] lookup(r, k) == lookup(m, k) by {
        assert(!consumes(net.inputs(t), ModelPlaceId(k)) && !touches(net.outputs(t), ModelPlaceId(k)));
    };
    crate::model::marking::lemma_sorted_unique(r, m);
}

/// In the search, a marking reached by a firing sequence no longer than the
/// depth being expanded (or by any, once every node is expanded) has been
/// found, at a depth no greater than the sequence's length.
proof fn lemma_order_walk_bound(
    net: ModelView,
    m0: Seq<(ModelPlaceId, u32)>,
    nodes: Seq<Seq<(ModelPlaceId, u32)>>,
    edges: Seq<StateEdge>,
    order: Seq<usize>,
    parent: Seq<Option<(ModelTransitionId, usize)>>,
    head: int,
    q: Seq<ModelTransitionId>,
    x: Seq<(ModelPlaceId, u32)>,
)
    requires
        explored(net, m0, nodes, edges),
        order_layered(edges, order, parent, head),
        forall|j: int| 0 <= j < order.len() ==> (#[trigger] order[j]) < nodes.len(),
        model_run(net, m0, q) == Some(x),
        (head < order.len() && q.len() <= bfs_depth(parent, head)) || head == order.len(),
    ensures
        exists|i: int| 0 <= i < order.len() && nodes[order[i] as int] == x && bfs_depth(parent, i) <= q.len(),
    decreases q.len(),
{
    reveal(order_layered);
    if q.len() == 0 {
        assert(nodes[order[0] as int] == x);
        assert(bfs_depth(parent, 0) == 0);
    } else {
        let q1 = q.drop_last();
        let t = q.last();
        assert(q1.push(t) =~= q);
        lemma_model_run_push(net, m0, q1, t);
        let y = model_run(net, m0, q1).unwrap();
        lemma_order_walk_bound(net, m0, nodes, edges, order, parent, head, q1, y);
        let iy = choose|i: int| 0 <= i < order.len() && nodes[order[i] as int] == y && bfs_depth(parent, i) <= q1.len();
        if iy >= head {
            assert(bfs_depth(parent, head) <= bfs_depth(parent, iy));
        }
        assert(order[iy] < nodes.len());
        assert(key_sorted(nodes[order[iy] as int]));
        if net.transitions.dom().contains(t.0) {
            assert(enabled_in(net.inputs(t.0), nodes[order[iy] as int]));
            let e = choose|e: int| 0 <= e < edges.len() && (#[trigger] edges[e]).from == order[iy] as int && edges[e].via.0 == t.0;
            assert(edges[e].from == order[iy]);
            assert(order_found(order, parent, edges[e].to, bfs_depth(parent, iy) + 1));
            let i = choose|i: int| 0 <= i < order.len() && order[i] == edges[e].to && bfs_depth(parent, i) <= bfs_depth(parent, iy) + 1;
            assert(nodes[order[i] as int] == x);
        } else {
            lemma_fire_outside(net, y, t.0);
        }
    }
}

/// A search that has found only node 0, and expanded nothing, is layered.
proof fn lemma_order_start(edges: Seq<StateEdge>, order: Seq<usize>, parent: Seq<Option<(ModelTransitionId, usize)>>)
    requires
        order == seq![0usize],
        parent == seq![None::<(ModelTransitionId, usize)>],
    ensures
        order_layered(edges, order, parent, 0),
{
    reveal(order_layered);
}

/// Finding a new node from the node being expanded, one level below it,
/// keeps the search layered.
proof fn lemma_order_push(
    edges: Seq<StateEdge>,
    order: Seq<usize>,
    parent: Seq<Option<(ModelTransitionId, usize)>>,
    head: usize,
    k: usize,
    t: ModelTransitionId,
)
    requires
        order_layered(edges, order, parent, head as int),
        head < order.len(),
        forall|j: int| 0 <= j < parent.len() && (#[trigger] parent[j]) is Some ==> link_from(parent[j]) < j,
        forall|j: int| 0 <= j < order.len() ==> #[trigger] bfs_depth(parent, j) <= bfs_depth(parent, head as int) + 1,
    ensures
        order_layered(edges, order.push(k), parent.push(Some((t, head))), head as int),
        forall|j: int| 0 <= j < order.len() ==> #[trigger] bfs_depth(parent.push(Some((t, head))), j) == bfs_depth(parent, j),
        bfs_depth(parent.push(Some((t, head))), order.len() as int) == bfs_depth(parent, head as int) + 1,
        forall|j: int| 0 <= j <= order.len() ==> #[trigger] bfs_depth(parent.push(Some((t, head))), j) <= bfs_depth(parent, head as int) + 1,
{
    reveal(order_layered);
    let p2 = parent.push(Some((t, head)));
    let o2 = order.push(k);
    let n = order.len() as int;
    assert forall|j: int| 0 <= j < order.len() implies #[trigger] bfs_depth(p2, j) == bfs_depth(parent, j) by {
        lemma_bfs_path_prefix(parent, p2, j);
    };
    assert(p2[n] == Some((t, head)));
    assert(bfs_path(p2, n) == bfs_path(p2, head as int).push(t));
    assert(bfs_depth(p2, n) == bfs_depth(parent, head as int) + 1) by {
        lemma_bfs_path_prefix(parent, p2, head as int);
    };
    assert forall|i: int, j: int| 0 <= i <= j < o2.len() implies #[trigger] bfs_depth(p2, i) <= #[trigger] bfs_depth(p2, j) by {
        if j < n {
            assert(bfs_depth(parent, i) <= bfs_depth(parent, j));
        } else if i < n {
            assert(bfs_depth(parent, i) <= bfs_depth(parent, head as int) + 1);
        }
    };
    assert forall|j: int, e: int| 0 <= j < head as int && 0 <= e < edges.len() && (#[trigger] edges[e]).from == #[trigger] o2[j]
        implies order_found(o2, p2, edges[e].to, bfs_depth(p2, j) + 1) by {
        assert(o2[j] == order[j]);
        assert(order_found(order, parent, edges[e].to, bfs_depth(parent, j) + 1));
        let i = choose|i: int| 0 <= i < order.len() && order[i] == edges[e].to && bfs_depth(parent, i) <= bfs_depth(parent, j) + 1;
        assert(o2[i] == order[i]);
    };
    assert(p2[0] == parent[0]);
    assert(o2[0] == order[0]);
}

/// Once every edge out of node `order[head]` leads to a node found at most one
/// level below it, the search has expanded `head` too.
proof fn lemma_order_expanded(edges: Seq<StateEdge>, order: Seq<usize>, parent: Seq<Option<(ModelTransitionId, usize)>>, head: int)
    requires
        order_layered(edges, order, parent, head),
        head < order.len(),
        forall|e: int| 0 <= e < edges.len() && (#[trigger] edges[e]).from == order[head]
            ==> order_found(order, parent, edges[e].to, bfs_depth(parent, head) + 1),
    ensures
        order_layered(edges, order, parent, head + 1),
        head + 1 < order.len() ==> bfs_depth(parent, head) <= bfs_depth(parent, head + 1),
{
    reveal(order_layered);
    assert forall|j: int, e: int| 0 <= j < head + 1 && 0 <= e < edges.len() && (#[trigger] edges[e]).from == #[trigger] order[j]
        implies order_found(order, parent, edges[e].to, bfs_depth(parent, j) + 1) by {
        if j < head {
        }
    };
}

proof fn lemma_model_run_prefix_some(net: ModelView, m: Seq<(ModelPlaceId, u32)>, ts: Seq<ModelTransitionId>, k: int)
    requires
        model_run(net, m, ts) is Some,
        0 <= k <= ts.len(),
    ensures
        model_run(net, m, ts.take(k)) is Some,
    decreases ts.len(),
{
    if k > 0 {
        assert(ts.take(k)[0] == ts[0]);
        assert(ts.take(k).drop_first() =~= ts.drop_first().take(k - 1));
        lemma_model_run_prefix_some(net, fire_result(net, m, ts[0].0), ts.drop_first(), k - 1);
    }
}

/// At most one token is ever in a place with this bound.
pub open spec fn safe_bound(b: Boundedness) -> bool {
    match b {
        Boundedness::Bounded(k) => k <= 1,
        Boundedness::Unbounded => false,
    }
}

/// The model transitions standing for the analysis transitions `ex`, in
/// order; an index with no model transition is left out.
pub open spec fn mapped(ex: Seq<TransitionId>, tm: Seq<ModelTransitionId>) -> Seq<ModelTransitionId>
    decreases ex.len(),
{
    if ex.len() == 0 {
        Seq::empty()
    } else {
        let r = mapped(ex.drop_last(), tm);
        if ex.last().0 < tm.len() {
            r.push(tm[ex.last().0 as int])
        } else {
            r
        }
    }
}

/// `x` is the model marking standing for the analysis marking `h` over the place order `ps`.
pub open spec fn model_of(ps: Seq<u64>, h: Seq<usize>, x: Seq<(ModelPlaceId, u32)>) -> bool {
    forall|k: u64| #[trigger] lookup(x, k) == if ps.contains(k) {
        Some(h[position(ps, k)] as u32)
    } else {
        None::<u32>
    }
}

/// The model transitions standing for the analysis transitions `ex`.
fn map_transitions(ex: &Vec<TransitionId>, tm: &Vec<ModelTransitionId>) -> (r: Vec<ModelTransitionId>)
    ensures
        r@ == mapped(ex@, tm@),
{
    let mut r: Vec<ModelTransitionId> = Vec::new();
    let mut i: usize = 0;
    while i < ex.len()
        invariant
            i <= ex@.len(),
            r@ == mapped(ex@.take(i as int), tm@),
        decreases ex@.len() - i,
    {
        proof {
            assert(ex@.take(i + 1).drop_last() =~= ex@.take(i as int));
            assert(ex@.take(i + 1).last() == ex@[i as int]);
        }
        let t = ex[i];
        if t.0 < tm.len() {
            r.push(tm[t.0]);
        }
        i += 1;
    }
    proof {
        assert(ex@.take(ex@.len() as int) =~= ex@);
    }
    r
}

/// `unbounded_in` is empty exactly when no place of `ps` is unbounded.
proof fn lemma_unbounded_in_empty(ps: Seq<u64>, g: GraphView<Seq<ExtendedToken>>)
    ensures
        unbounded_in(ps, g).len() == 0 <==> forall|i: int| 0 <= i < ps.len() ==> !(#[trigger] bound_of(g.nodes, i) is Unbounded),
    decreases ps.len(),
{
    if ps.len() > 0 {
        lemma_unbounded_in_empty(ps.drop_last(), g);
        lemma_unbounded_in_len(ps.drop_last(), g);
    }
}

/// With no inhibitor arc, a coverability graph lists an unbounded place only
/// when the counts outgrow `usize`: some firing from a reachable marking
/// exceeds it.
proof fn lemma_listed_unbounded(nv: ModelView, m0: Seq<(ModelPlaceId, u32)>, g: GraphView<Seq<ExtendedToken>>)
    requires
        is_coverability_graph(analysis_view(nv), analysis_tokens(nv, m0), g),
        analysis_view(nv).wf(),
        analysis_view(nv).within(analysis_tokens(nv, m0).len()),
        analysis_view(nv).transitions.len() <= usize::MAX,
        no_inhibit(analysis_view(nv)),
        unbounded_in(place_order(nv), g).len() > 0,
    ensures
        !analysis_view(nv).fits_from(analysis_tokens(nv, m0)),
{
    let av = analysis_view(nv);
    let at = analysis_tokens(nv, m0);
    if av.fits_from(at) {
        crate::coverability::lemma_omega_means_unbounded(av, at, g);
        lemma_unbounded_in_empty(place_order(nv), g);
        let i = choose|i: int| 0 <= i < place_order(nv).len() && (#[trigger] bound_of(g.nodes, i) is Unbounded);
        crate::boundedness::lemma_bound_upto(g.nodes, i, g.nodes.len() as int);
        let j = choose|j: int| 0 <= j < g.nodes.len() && #[trigger] g.nodes[j][i] == ExtendedToken::Omega;
        assert(crate::coverability::omega_free(g.nodes[j]));
        assert(g.nodes[j].len() == at.len());
    }
}

/// Liveness of one model transition, with a firing sequence that fires it
/// (empty when it is dead).
pub struct TransitionLiveness {
    pub transition: ModelTransitionId,
    pub level: Liveness,
    pub example: Vec<ModelTransitionId>,
}

/// A dead marking: a firing sequence that reaches it, and every marking along
/// that sequence when replayed on the editable net (shorter than the sequence
/// plus one when the replay gets stuck, which only a sequence read off the
/// coverability graph can do).
pub struct Deadlock {
    pub example: Vec<ModelTransitionId>,
    pub states: Vec<ModelMarking>,
}

/// Liveness, reversibility, home states and deadlocks of an editable net.
/// `precise` tells whether they come from the reachability graph (the net is
/// bounded) or from the coverability graph. Only when `precise` do
/// `home_states` hold every home state; otherwise they hold the initial marking
/// when the net is reversible, and nothing else.
pub struct NetBehavior {
    pub liveness: Vec<TransitionLiveness>,
    pub reversible: bool,
    pub home_states: Vec<ModelMarking>,
    pub deadlocks: Vec<Deadlock>,
    pub precise: bool,
}

/// Every property [`analyze`] finds: the bound of each place, whether the net
/// is safe, and its behaviour.
pub struct NetProperties {
    pub boundedness: Vec<(ModelPlaceId, Boundedness)>,
    pub safe: bool,
    pub behavior: NetBehavior,
}

/// `homes` stands for the home states `hs` of `net` from `m0`, which are all
/// of them, each once.
pub open spec fn homes_match(net: NetView, m0: Seq<usize>, ps: Seq<u64>, hs: Seq<Seq<usize>>, homes: Seq<ModelMarking>) -> bool {
    &&& hs.len() == homes.len()
    &&& hs.no_duplicates()
    &&& forall|a: int, b: int| 0 <= a < b < hs.len() ==> crate::marking::marking_lt(#[trigger] hs[a], #[trigger] hs[b])
    &&& forall|h: Seq<usize>| hs.contains(h) <==> is_home(net, m0, h)
    &&& forall|i: int| 0 <= i < hs.len() ==> model_of(ps, hs[i], #[trigger] homes[i]@)
}

/// The firing sequences `examples` stand for those of `ds`, which lists every
/// dead marking reachable from `m0` once, with a shortest firing sequence that
/// reaches it.
pub open spec fn deadlocks_match(
    net: NetView,
    m0: Seq<usize>,
    ts: Seq<u64>,
    ds: Seq<(Seq<usize>, Seq<TransitionId>)>,
    examples: Seq<Seq<ModelTransitionId>>,
) -> bool {
    &&& ds.len() == examples.len()
    &&& dead_list(net, m0, ds)
    &&& forall|a: int, b: int| 0 <= a < b < ds.len() ==> crate::marking::marking_lt((#[trigger] ds[a]).0, (#[trigger] ds[b]).0)
    &&& forall|j: int| 0 <= j < ds.len() ==> #[trigger] examples[j] == mapped(ds[j].1, transition_keys_ids(ts))
}

/// `ds` lists every dead marking reachable from `m0` once, with a shortest
/// firing sequence that reaches it.
pub open spec fn dead_list(net: NetView, m0: Seq<usize>, ds: Seq<(Seq<usize>, Seq<TransitionId>)>) -> bool {
    &&& forall|a: int, b: int| 0 <= a < b < ds.len() ==> (#[trigger] ds[a]).0 != (#[trigger] ds[b]).0
    &&& forall|m: Seq<usize>| (exists|j: int| 0 <= j < ds.len() && (#[trigger] ds[j]).0 == m) <==> (net.reachable(m0, m)
        && is_dead(net, m))
    &&& forall|j: int| 0 <= j < ds.len() ==> net.run(m0, (#[trigger] ds[j]).1) == Some(ds[j].0)
    &&& forall|j: int, q: Seq<TransitionId>| 0 <= j < ds.len() && #[trigger] net.run(m0, q) == Some((#[trigger] ds[j]).0)
        ==> ds[j].1.len() <= q.len()
}

/// The examples of a list of liveness entries.
pub open spec fn liveness_examples(l: Seq<TransitionLiveness>) -> Seq<Seq<ModelTransitionId>> {
    l.map_values(|x: TransitionLiveness| x.example@)
}

/// The firing sequences `examples` stand for those of `ls`, which hold for
/// each transition `j` of `net` nothing when it never fires from `m0`, and
/// otherwise a shortest firing sequence from `m0` that ends by firing it.
pub open spec fn live_examples_match(
    net: NetView,
    m0: Seq<usize>,
    ts: Seq<u64>,
    ls: Seq<Seq<TransitionId>>,
    examples: Seq<Seq<ModelTransitionId>>,
) -> bool {
    &&& ls.len() == examples.len()
    &&& forall|j: int| 0 <= j < ls.len() ==> #[trigger] examples[j] == mapped(ls[j], transition_keys_ids(ts))
    &&& forall|j: int| 0 <= j < ls.len() && murata_level(net, m0, TransitionId(j as usize)) == Liveness::Dead ==> (#[trigger] ls[j]).len() == 0
    &&& forall|j: int| 0 <= j < ls.len() && murata_level(net, m0, TransitionId(j as usize)) != Liveness::Dead ==> {
        &&& (#[trigger] ls[j]).len() > 0
        &&& ls[j].last() == TransitionId(j as usize)
        &&& net.run(m0, ls[j]) is Some
        &&& forall|q: Seq<TransitionId>| q.len() > 0 && q.last() == TransitionId(j as usize) && #[trigger] net.run(m0, q) is Some
            ==> ls[j].len() <= q.len()
    }
}

/// The firing sequences `examples` stand for those of `ls`, which hold for
/// each transition `j` nothing when it is dead in the graph `g` from `init`,
/// and otherwise a shortest sequence of labels along `g` from `init` that ends with `j`.
pub open spec fn covered_examples_match(
    g: GraphView<Seq<ExtendedToken>>,
    init: Seq<ExtendedToken>,
    ts: Seq<u64>,
    ls: Seq<Seq<TransitionId>>,
    examples: Seq<Seq<ModelTransitionId>>,
) -> bool {
    &&& ls.len() == examples.len()
    &&& forall|j: int| 0 <= j < ls.len() ==> #[trigger] examples[j] == mapped(ls[j], transition_keys_ids(ts))
    &&& forall|j: int| 0 <= j < ls.len() && liveness_level(g, init, TransitionId(j as usize)) == Liveness::Dead ==> (#[trigger] ls[j]).len() == 0
    &&& forall|j: int| 0 <= j < ls.len() && liveness_level(g, init, TransitionId(j as usize)) != Liveness::Dead ==> {
        &&& (#[trigger] ls[j]).len() > 0
        &&& ls[j].last() == TransitionId(j as usize)
        &&& fires_along(g, init, ls[j])
        &&& forall|q: Seq<TransitionId>| q.len() > 0 && q.last() == TransitionId(j as usize) && #[trigger] fires_along(g, init, q)
            ==> ls[j].len() <= q.len()
    }
}

/// The firing sequences `examples` are those of the dead ends `d`, in the
/// model's transition keys `ts`, one for one and in order.
pub open spec fn covered_deadlocks_match(
    ts: Seq<u64>,
    d: Seq<(Seq<ExtendedToken>, Seq<TransitionId>)>,
    examples: Seq<Seq<ModelTransitionId>>,
) -> bool {
    &&& examples.len() == d.len()
    &&& forall|j: int| 0 <= j < d.len() ==> #[trigger] examples[j] == mapped(d[j].1, transition_keys_ids(ts))
}

/// Examples of a list of deadlocks.
pub open spec fn deadlock_examples(d: Seq<Deadlock>) -> Seq<Seq<ModelTransitionId>> {
    d.map_values(|x: Deadlock| x.example@)
}

/// What `r` reads off one coverability graph `g` of the analysis net `av`
/// from `at`: the bound of every place and, when some place is unbounded,
/// every liveness level with its firing sequence, reversibility, and the
/// deadlocks with theirs.
pub open spec fn read_off_graph(
    av: NetView,
    at: Seq<usize>,
    ps: Seq<u64>,
    ts: Seq<u64>,
    g: GraphView<Seq<ExtendedToken>>,
    r: NetProperties,
) -> bool {
    &&& forall|i: int| 0 <= i < ps.len() ==> #[trigger] r.boundedness@[i] == (ModelPlaceId(ps[i]), bound_of(g.nodes, i))
    &&& !r.behavior.precise ==> {
        &&& forall|j: int| 0 <= j < ts.len() ==> (#[trigger] r.behavior.liveness@[j]).level
            == liveness_level(g, extend(at), TransitionId(j as usize))
        &&& r.behavior.reversible == home_in(g, extend(at))
        &&& exists|ls: Seq<Seq<TransitionId>>|
            #[trigger] covered_examples_match(g, extend(at), ts, ls, liveness_examples(r.behavior.liveness@))
        &&& exists|d: Seq<(Seq<ExtendedToken>, Seq<TransitionId>)>| #[trigger] dead_ends_of(g, extend(at), d)
            && covered_deadlocks_match(ts, d, deadlock_examples(r.behavior.deadlocks@))
            && forall|j: int| 0 <= j < d.len() && omega_free((#[trigger] d[j]).0) ==> stands_for_deadlock(av, at, d[j].0)
    }
}

/// What [`analyze`] finds of the net `nv` with tokens `m0`, stated in the
/// model's own keys (see there).
pub open spec fn analysis_holds(nv: ModelView, m0: Seq<(ModelPlaceId, u32)>, r: NetProperties) -> bool {
    let av = analysis_view(nv);
    let at = analysis_tokens(nv, m0);
    let ps = place_order(nv);
    let ts = transition_order(nv);
    &&& r.boundedness@.len() == ps.len()
    &&& exists|g: GraphView<Seq<ExtendedToken>>| #[trigger] is_coverability_graph(av, at, g)
        && read_off_graph(av, at, ps, ts, g, r)
    &&& r.safe == forall|i: int| 0 <= i < ps.len() ==> safe_bound((#[trigger] r.boundedness@[i]).1)
    &&& r.behavior.precise == forall|i: int| 0 <= i < ps.len() ==> (#[trigger] r.boundedness@[i]).1 is Bounded
    &&& r.behavior.precise ==> forall|i: int| 0 <= i < ps.len()
        ==> crate::boundedness::count_reached(av, at, i, (#[trigger] r.boundedness@[i]).1->Bounded_0)
    &&& no_inhibit(av) && !r.behavior.precise ==> !av.fits_from(at)
    &&& no_inhibit(av) && av.fits_from(at) ==> forall|i: int| 0 <= i < ps.len()
        ==> (#[trigger] r.boundedness@[i]).1 is Bounded && crate::boundedness::count_reached(av, at, i, r.boundedness@[i].1->Bounded_0)
    &&& r.behavior.precise ==> av.fits_from(at) && av.reachable_set(at).finite()
    &&& r.behavior.precise && no_inhibit(av) ==> forall|i: int, m: Seq<usize>|
        0 <= i < ps.len() && #[trigger] av.reachable(at, m) ==> m[i] <= (#[trigger] r.boundedness@[i]).1->Bounded_0
    &&& r.behavior.liveness@.len() == ts.len()
    &&& forall|j: int| 0 <= j < ts.len() ==> (#[trigger] r.behavior.liveness@[j]).transition == ModelTransitionId(ts[j])
    &&& r.behavior.precise ==> forall|j: int| 0 <= j < ts.len() ==> (#[trigger] r.behavior.liveness@[j]).level
        == murata_level(av, at, TransitionId(j as usize))
    &&& r.behavior.precise ==> r.behavior.reversible == reversible(av, at)
    &&& r.behavior.precise ==> exists|hs: Seq<Seq<usize>>| #[trigger] homes_match(av, at, ps, hs, r.behavior.home_states@)
    &&& !r.behavior.precise && r.behavior.reversible ==> r.behavior.home_states@.len() == 1
        && r.behavior.home_states@[0]@ == m0
    &&& !r.behavior.precise && !r.behavior.reversible ==> r.behavior.home_states@.len() == 0
    &&& r.behavior.precise ==> exists|ls: Seq<Seq<TransitionId>>|
        #[trigger] live_examples_match(av, at, ts, ls, liveness_examples(r.behavior.liveness@))
    &&& r.behavior.precise ==> exists|ds: Seq<(Seq<usize>, Seq<TransitionId>)>|
        #[trigger] deadlocks_match(av, at, ts, ds, deadlock_examples(r.behavior.deadlocks@))
    &&& forall|i: int| 0 <= i < r.behavior.deadlocks@.len() ==> {
        let d = #[trigger] r.behavior.deadlocks@[i];
        &&& 1 <= d.states@.len() <= d.example@.len() + 1
        &&& forall|k: int| 0 <= k < d.states@.len() ==> model_run(nv, m0, d.example@.take(k)) == Some(#[trigger] d.states@[k]@)
        &&& d.states@.len() < d.example@.len() + 1 ==> stopped_at(nv, d.states@.last()@, d.example@[d.states@.len() - 1])
    }
}

/// Every analysis of an editable net with tokens `marking`: boundedness over
/// the coverability graph and, from the reachability graph when every place is
/// bounded and from that same coverability graph otherwise, liveness, reversibility,
/// home states and deadlocks, all in terms of the model's own keys.
#[verifier::rlimit(40)]
pub fn analyze(net: &ModelNet, marking: &ModelMarking) -> (r: NetProperties)
    requires
        net.wf(),
        km_fits(analysis_view(net@), extend(analysis_tokens(net@, marking@))),
    ensures
        analysis_holds(net@, marking@, r),
{
    let ghost nv = net@;
    let ghost m0 = marking@;
    let a = to_analysis_net(net, marking);
    let ghost av = a.net@;
    let ghost at = a.initial@;
    let ghost ps = place_order(nv);
    let ghost ts = transition_order(nv);
    proof {
        a.net.lemma_wf();
    }
    let graph = coverability_graph(&a.net, &a.initial);
    let ghost g = graph@;
    let report = boundedness_in(&a.net, &a.initial, &graph);
    let (boundedness, safe, precise) = boundedness_entries(&a.place_map, &report);
    proof {
        assert forall|k: int| 0 <= k < ps.len() implies #[trigger] boundedness@[k] == (ModelPlaceId(ps[k]), bound_of(g.nodes, k)) by {
            assert(place_keys(a.place_map@)[k] == a.place_map@[k].0);
        };
        lemma_unbounded_in_empty(ps, g);
        if precise {
            assert forall|k: int| 0 <= k < ps.len() implies !(#[trigger] bound_of(g.nodes, k) is Unbounded) by {
                assert(boundedness@[k].1 is Bounded);
            };
        }
        lemma_transition_keys_ids(a.transition_map@, ts);
        if precise {
            crate::boundedness::lemma_bounded_free(av, at, g);
            crate::coverability::lemma_omega_free_bounded(av, at, g);
        }
    }
    let live = if precise {
        liveness_report(&a.net, &a.initial)
    } else {
        liveness_covering_in(&a.net, &a.initial, &graph)
    };
    let liveness = liveness_entries(&a.transition_map, &live);
    let ghost live_views = live@.map_values(|x: crate::liveness::LivenessReport| x.example@);
    proof {
        assert forall|j: int| 0 <= j < live_views.len() implies #[trigger] liveness_examples(liveness@)[j] == mapped(live_views[j], transition_keys_ids(ts)) by {
            assert(liveness_examples(liveness@)[j] == liveness@[j].example@);
        };
        if precise {
            assert(live_examples_match(av, at, ts, live_views, liveness_examples(liveness@)));
        } else {
            assert(covered_examples_match(g, extend(at), ts, live_views, liveness_examples(liveness@)));
        }
    }
    let reversible_now = if precise {
        is_reversible(&a.net, &a.initial)
    } else {
        reversible_covering_in(&a.net, &a.initial, &graph)
    };
    let mut homes: Vec<ModelMarking> = Vec::new();
    let ghost mut home_views: Seq<Seq<usize>> = Seq::empty();
    if precise {
        let hs = home_states(&a.net, &a.initial);
        proof {
            assert forall|x: int, y: int| 0 <= x < y < a.place_map@.len() implies a.place_map@[x] != a.place_map@[y] by {
                assert(place_keys(a.place_map@)[x] == a.place_map@[x].0);
                assert(place_keys(a.place_map@)[y] == a.place_map@[y].0);
                lemma_slot_order_distinct(nv.places.dom(), ps, x, y);
            };
            assert forall|k: int| 0 <= k < hs@.len() implies a.place_map@.len() <= (#[trigger] hs@[k])@.len() by {
                assert(views(hs@)[k] == hs@[k]@);
                assert(views(hs@).contains(hs@[k]@));
                lemma_home_len(av, at, hs@[k]@);
            };
        }
        homes = home_entries(&a.place_map, &hs);
        proof {
            views(hs@).unique_seq_to_set();
            assert(homes_match(av, at, ps, views(hs@), homes@));
            home_views = views(hs@);
        }
    } else if reversible_now {
        homes.push(marking.duplicate());
    }
    let ghost mut dead_views: Seq<(Seq<usize>, Seq<TransitionId>)> = Seq::empty();
    let ghost mut cov_dead: Seq<(Seq<ExtendedToken>, Seq<TransitionId>)> = Seq::empty();
    let examples = if precise {
        let found = deadlocks(&a.net, &a.initial);
        let ghost dw = found@.map_values(|e: (CoreMarking, Vec<TransitionId>)| (e.0@, e.1@));
        proof {
            assert forall|j: int| 0 <= j < dw.len() implies #[trigger] dw[j] == (found@[j].0@, found@[j].1@) by {};
            assert forall|a: int, b: int| 0 <= a < b < dw.len() implies (#[trigger] dw[a]).0 != (#[trigger] dw[b]).0 by {
                assert(found@[a].0@ != found@[b].0@);
            };
            assert forall|m: Seq<usize>| (exists|j: int| 0 <= j < dw.len() && (#[trigger] dw[j]).0 == m) <==> (av.reachable(at, m)
                && is_dead(av, m)) by {
                if exists|j: int| 0 <= j < dw.len() && (#[trigger] dw[j]).0 == m {
                    let j = choose|j: int| 0 <= j < dw.len() && (#[trigger] dw[j]).0 == m;
                    assert(found@[j].0@ == m);
                }
                if av.reachable(at, m) && is_dead(av, m) {
                    let j = choose|j: int| 0 <= j < found@.len() && (#[trigger] found@[j]).0@ == m;
                    assert(dw[j].0 == m);
                }
            };
            assert forall|j: int| 0 <= j < dw.len() implies av.run(at, (#[trigger] dw[j]).1) == Some(dw[j].0) by {
                assert(av.run(at, found@[j].1@) == Some(found@[j].0@));
            };
            assert(dead_list(av, at, dw));
        }
        let examples = dead_examples(&found, &a.transition_map);
        proof {
            assert(deadlocks_match(av, at, ts, dw, views_of_examples(examples@)));
            dead_views = dw;
        }
        examples
    } else {
        let found = deadlocks_covering_in(&a.net, &a.initial, &graph);
        let examples = covering_examples(&found, &a.transition_map);
        proof {
            let dd = choose|dd: Seq<(Seq<ExtendedToken>, Seq<TransitionId>)>|
                #[trigger] dead_ends_of(g, extend(at), dd)
                && found@.len() == dd.len()
                && (forall|j: int| 0 <= j < dd.len() ==> (#[trigger] found@[j])@ == dd[j].1)
                && (forall|j: int| 0 <= j < dd.len() && omega_free((#[trigger] dd[j]).0)
                    ==> stands_for_deadlock(av, at, dd[j].0))
                && (no_inhibit(av) && av.fits_from(at) ==> forall|j: int| 0 <= j < dd.len()
                    ==> omega_free((#[trigger] dd[j]).0));
            assert forall|j: int| 0 <= j < dd.len() implies #[trigger] views_of_examples(examples@)[j]
                == mapped(dd[j].1, transition_keys_ids(ts)) by {
                assert(found@[j]@ == dd[j].1);
            };
            assert(covered_deadlocks_match(ts, dd, views_of_examples(examples@)));
            cov_dead = dd;
        }
        examples
    };
    let dls = replay_all(net, marking, &examples);
    proof {
        assert(deadlock_examples(dls@) == views_of_examples(examples@));
    }
    let r = NetProperties {
        boundedness,
        safe,
        behavior: NetBehavior { liveness, reversible: reversible_now, home_states: homes, deadlocks: dls, precise },
    };
    proof {
        if no_inhibit(av) && !precise {
            let k = choose|k: int| 0 <= k < ps.len() && !((#[trigger] boundedness@[k]).1 is Bounded);
            assert(boundedness@[k] == (ModelPlaceId(ps[k]), bound_of(g.nodes, k)));
            lemma_unbounded_in_empty(ps, g);
            lemma_listed_unbounded(nv, m0, g);
        }
        if precise {
            assert forall|i: int| 0 <= i < ps.len()
                implies crate::boundedness::count_reached(av, at, i, (#[trigger] r.boundedness@[i]).1->Bounded_0) by {
                crate::boundedness::lemma_precise_bounds(av, at, g, i);
                assert(r.boundedness@[i] == (ModelPlaceId(ps[i]), bound_of(g.nodes, i)));
            };
            if no_inhibit(av) && av.fits_from(at) {
                assert forall|i: int, m: Seq<usize>| 0 <= i < ps.len() && #[trigger] av.reachable(at, m)
                    implies m[i] <= (#[trigger] r.boundedness@[i]).1->Bounded_0 by {
                    crate::boundedness::lemma_precise_bounds(av, at, g, i);
                    assert(r.boundedness@[i] == (ModelPlaceId(ps[i]), bound_of(g.nodes, i)));
                };
            }
            assert(homes_match(analysis_view(nv), analysis_tokens(nv, m0), ps, home_views, r.behavior.home_states@));
            assert(deadlocks_match(analysis_view(nv), analysis_tokens(nv, m0), ts, dead_views, deadlock_examples(r.behavior.deadlocks@)));
        } else {
            assert(dead_ends_of(g, extend(at), cov_dead));
            assert(covered_deadlocks_match(ts, cov_dead, deadlock_examples(r.behavior.deadlocks@)));
        }
        assert(read_off_graph(av, at, ps, ts, g, r));
    }
    r
}

/// Views of a list of firing sequences.
pub open spec fn views_of_examples(v: Seq<Vec<ModelTransitionId>>) -> Seq<Seq<ModelTransitionId>> {
    v.map_values(|x: Vec<ModelTransitionId>| x@)
}

/// The place bounds in place order, whether every place is safe, and whether every place is bounded.
fn boundedness_entries(place_map: &Vec<ModelPlaceId>, report: &Vec<Boundedness>) -> (r: (Vec<(ModelPlaceId, Boundedness)>, bool, bool))
    requires
        place_map@.len() == report@.len(),
    ensures
        r.0@.len() == place_map@.len(),
        forall|k: int| 0 <= k < place_map@.len() ==> #[trigger] r.0@[k] == (place_map@[k], report@[k]),
        r.1 == forall|k: int| 0 <= k < place_map@.len() ==> safe_bound((#[trigger] r.0@[k]).1),
        r.2 == forall|k: int| 0 <= k < place_map@.len() ==> (#[trigger] r.0@[k]).1 is Bounded,
{
    let mut boundedness: Vec<(ModelPlaceId, Boundedness)> = Vec::new();
    let mut safe = true;
    let mut precise = true;
    let mut i: usize = 0;
    while i < place_map.len()
        invariant
            place_map@.len() == report@.len(),
            i <= place_map@.len(),
            boundedness@.len() == i,
            forall|k: int| 0 <= k < i ==> #[trigger] boundedness@[k] == (place_map@[k], report@[k]),
            safe == forall|k: int| 0 <= k < i ==> safe_bound((#[trigger] boundedness@[k]).1),
            precise == forall|k: int| 0 <= k < i ==> (#[trigger] boundedness@[k]).1 is Bounded,
        decreases place_map@.len() - i,
    {
        let b = report[i];
        let ghost prev = boundedness@;
        boundedness.push((place_map[i], b));
        let is_bounded = match b {
            Boundedness::Unbounded => false,
            Boundedness::Bounded(_) => true,
        };
        let ghost old_safe = safe;
        let ghost old_precise = precise;
        safe = safe && b.is_safe();
        precise = precise && is_bounded;
        proof {
            assert forall|k: int| 0 <= k < i implies #[trigger] boundedness@[k] == prev[k] by {};
            if safe {
                assert forall|k: int| 0 <= k < i + 1 implies safe_bound((#[trigger] boundedness@[k]).1) by {
                    if k < i {
                        assert(boundedness@[k] == prev[k]);
                    }
                };
            } else {
                if old_safe {
                    assert(!safe_bound(boundedness@[i as int].1));
                } else {
                    let k = choose|k: int| 0 <= k < i && !safe_bound((#[trigger] prev[k]).1);
                    assert(boundedness@[k] == prev[k]);
                }
            }
            if precise {
                assert forall|k: int| 0 <= k < i + 1 implies (#[trigger] boundedness@[k]).1 is Bounded by {
                    if k < i {
                        assert(boundedness@[k] == prev[k]);
                    }
                };
            } else {
                if old_precise {
                    assert(!(boundedness@[i as int].1 is Bounded));
                } else {
                    let k = choose|k: int| 0 <= k < i && !((#[trigger] prev[k]).1 is Bounded);
                    assert(boundedness@[k] == prev[k]);
                }
            }
        }
        i += 1;
    }
    (boundedness, safe, precise)
}

/// The liveness of each transition in transition order, with its example in model terms.
fn liveness_entries(transition_map: &Vec<ModelTransitionId>, live: &Vec<crate::liveness::LivenessReport>) -> (r: Vec<TransitionLiveness>)
    requires
        transition_map@.len() == live@.len(),
    ensures
        r@.len() == live@.len(),
        forall|k: int| 0 <= k < live@.len() ==> (#[trigger] r@[k]).transition == transition_map@[k]
            && r@[k].level == live@[k].level
            && r@[k].example@ == mapped(live@[k].example@, transition_map@),
{
    let mut liveness: Vec<TransitionLiveness> = Vec::new();
    let mut j: usize = 0;
    while j < transition_map.len()
        invariant
            transition_map@.len() == live@.len(),
            j <= live@.len(),
            liveness@.len() == j,
            forall|k: int| 0 <= k < j ==> (#[trigger] liveness@[k]).transition == transition_map@[k]
                && liveness@[k].level == live@[k].level
                && liveness@[k].example@ == mapped(live@[k].example@, transition_map@),
        decreases live@.len() - j,
    {
        let example = map_transitions(&live[j].example, transition_map);
        liveness.push(TransitionLiveness { transition: transition_map[j], level: live[j].level, example });
        j += 1;
    }
    liveness
}

/// The model markings standing for the analysis markings `hs`, in order.
fn home_entries(place_map: &Vec<ModelPlaceId>, hs: &Vec<CoreMarking>) -> (r: Vec<ModelMarking>)
    requires
        forall|x: int, y: int| 0 <= x < y < place_map@.len() ==> place_map@[x] != place_map@[y],
        forall|k: int| 0 <= k < hs@.len() ==> place_map@.len() <= (#[trigger] hs@[k])@.len(),
    ensures
        r@.len() == hs@.len(),
        forall|i: int| 0 <= i < hs@.len() ==> model_of(place_keys(place_map@), hs@[i]@, #[trigger] r@[i]@),
{
    let mut homes: Vec<ModelMarking> = Vec::new();
    let mut k: usize = 0;
    while k < hs.len()
        invariant
            forall|x: int, y: int| 0 <= x < y < place_map@.len() ==> place_map@[x] != place_map@[y],
            forall|kk: int| 0 <= kk < hs@.len() ==> place_map@.len() <= (#[trigger] hs@[kk])@.len(),
            k <= hs@.len(),
            homes@.len() == k,
            forall|i: int| 0 <= i < k ==> model_of(place_keys(place_map@), hs@[i]@, #[trigger] homes@[i]@),
        decreases hs@.len() - k,
    {
        let hm = to_model_marking(place_map, &hs[k]);
        let ghost prev = homes@;
        homes.push(hm);
        proof {
            assert forall|i: int| 0 <= i < k + 1 implies model_of(place_keys(place_map@), hs@[i]@, #[trigger] homes@[i]@) by {
                if i < k {
                    assert(homes@[i] == prev[i]);
                }
            };
        }
        k += 1;
    }
    homes
}

/// The firing sequence of each dead marking, in model terms.
fn dead_examples(found: &Vec<(CoreMarking, Vec<TransitionId>)>, tm: &Vec<ModelTransitionId>) -> (r: Vec<Vec<ModelTransitionId>>)
    ensures
        r@.len() == found@.len(),
        forall|i: int| 0 <= i < found@.len() ==> (#[trigger] r@[i])@ == mapped(found@[i].1@, tm@),
{
    let mut examples: Vec<Vec<ModelTransitionId>> = Vec::new();
    let mut k: usize = 0;
    while k < found.len()
        invariant
            k <= found@.len(),
            examples@.len() == k,
            forall|i: int| 0 <= i < k ==> (#[trigger] examples@[i])@ == mapped(found@[i].1@, tm@),
        decreases found@.len() - k,
    {
        let ex = map_transitions(&found[k].1, tm);
        let ghost prev = examples@;
        examples.push(ex);
        proof {
            assert forall|i: int| 0 <= i < k + 1 implies (#[trigger] examples@[i])@ == mapped(found@[i].1@, tm@) by {
                if i < k {
                    assert(examples@[i] == prev[i]);
                }
            };
        }
        k += 1;
    }
    examples
}

/// The firing sequences read off the coverability graph, in model terms.
fn covering_examples(found: &Vec<Vec<TransitionId>>, tm: &Vec<ModelTransitionId>) -> (r: Vec<Vec<ModelTransitionId>>)
    ensures
        r@.len() == found@.len(),
        forall|i: int| 0 <= i < found@.len() ==> (#[trigger] r@[i])@ == mapped(found@[i]@, tm@),
{
    let mut examples: Vec<Vec<ModelTransitionId>> = Vec::new();
    let mut k: usize = 0;
    while k < found.len()
        invariant
            k <= found@.len(),
            examples@.len() == k,
            forall|i: int| 0 <= i < k ==> (#[trigger] examples@[i])@ == mapped(found@[i]@, tm@),
        decreases found@.len() - k,
    {
        let ex = map_transitions(&found[k], tm);
        let ghost prev = examples@;
        examples.push(ex);
        proof {
            assert forall|i: int| 0 <= i < k + 1 implies (#[trigger] examples@[i])@ == mapped(found@[i]@, tm@) by {
                if i < k {
                    assert(examples@[i] == prev[i]);
                }
            };
        }
        k += 1;
    }
    examples
}

/// Each firing sequence with the markings it visits when replayed from `marking`.
fn replay_all(net: &ModelNet, marking: &ModelMarking, examples: &Vec<Vec<ModelTransitionId>>) -> (r: Vec<Deadlock>)
    requires
        net.wf(),
    ensures
        deadlock_examples(r@) == views_of_examples(examples@),
        forall|i: int| 0 <= i < r@.len() ==> {
            let d = #[trigger] r@[i];
            &&& 1 <= d.states@.len() <= d.example@.len() + 1
            &&& forall|k: int| 0 <= k < d.states@.len() ==> model_run(net@, marking@, d.example@.take(k)) == Some(#[trigger] d.states@[k]@)
            &&& d.states@.len() < d.example@.len() + 1 ==> stopped_at(net@, d.states@.last()@, d.example@[d.states@.len() - 1])
        },
{
    let mut dls: Vec<Deadlock> = Vec::new();
    let mut k: usize = 0;
    while k < examples.len()
        invariant
            net.wf(),
            k <= examples@.len(),
            dls@.len() == k,
            forall|i: int| 0 <= i < k ==> (#[trigger] dls@[i]).example@ == examples@[i]@,
            forall|i: int| 0 <= i < k ==> {
                let d = #[trigger] dls@[i];
                &&& 1 <= d.states@.len() <= d.example@.len() + 1
                &&& forall|kk: int| 0 <= kk < d.states@.len() ==> model_run(net@, marking@, d.example@.take(kk)) == Some(#[trigger] d.states@[kk]@)
                &&& d.states@.len() < d.example@.len() + 1 ==> stopped_at(net@, d.states@.last()@, d.example@[d.states@.len() - 1])
            },
        decreases examples@.len() - k,
    {
        let ex = copy_transitions(&examples[k]);
        let states = replay_fitting(net, marking, ex.as_slice());
        let ghost prev = dls@;
        dls.push(Deadlock { example: ex, states });
        proof {
            assert forall|i: int| 0 <= i < k + 1 implies (#[trigger] dls@[i]).example@ == examples@[i]@ by {
                if i < k {
                    assert(dls@[i] == prev[i]);
                }
            };
        }
        k += 1;
    }
    proof {
        assert(deadlock_examples(dls@) =~= views_of_examples(examples@));
    }
    dls
}

/// Transition ids standing for the keys `ts`.
pub open spec fn transition_keys_ids(ts: Seq<u64>) -> Seq<ModelTransitionId> {
    ts.map_values(|k: u64| ModelTransitionId(k))
}

proof fn lemma_transition_keys_ids(v: Seq<ModelTransitionId>, ts: Seq<u64>)
    requires
        transition_keys(v) == ts,
    ensures
        v == transition_keys_ids(ts),
{
    assert(v =~= transition_keys_ids(ts)) by {
        assert forall|i: int| 0 <= i < v.len() implies v[i] == transition_keys_ids(ts)[i] by {
            assert(transition_keys(v)[i] == v[i].0);
        };
    };
}

/// Entries of a sequence in slot order are distinct.
proof fn lemma_slot_order_distinct(dom: Set<u64>, s: Seq<u64>, x: int, y: int)
    requires
        in_slot_order(dom, s) || (forall|i: int, j: int| 0 <= i < j < s.len() ==> slot_index(s[i]) < slot_index(s[j])),
        0 <= x < y < s.len(),
    ensures
        s[x] != s[y],
{
    assert(slot_index(s[x]) < slot_index(s[y]));
}

/// A home state is reachable, so it has a count for every place.
proof fn lemma_home_len(net: NetView, m0: Seq<usize>, h: Seq<usize>)
    requires
        is_home(net, m0, h),
    ensures
        h.len() == m0.len(),
{
    let ts = choose|ts: Seq<TransitionId>| #[trigger] net.run(m0, ts) == Some(h);
    crate::net::lemma_run_len(net, m0, ts);
}

/// A copy of a list of model transitions.
fn copy_transitions(v: &Vec<ModelTransitionId>) -> (r: Vec<ModelTransitionId>)
    ensures
        r@ == v@,
{
    let mut r: Vec<ModelTransitionId> = Vec::new();
    let mut i: usize = 0;
    while i < v.len()
        invariant
            i <= v@.len(),
            r@ == v@.take(i as int),
        decreases v@.len() - i,
    {
        r.push(v[i]);
        i += 1;
        proof {
            assert(r@ =~= v@.take(i as int));
        }
    }
    proof {
        assert(v@.take(v@.len() as int) =~= v@);
    }
    r
}

} // verus!
