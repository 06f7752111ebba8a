//! The analysis net of an editable net fires as the editable net does, so
//! what the analyses find of it holds of the editable net.
use vstd::prelude::*;

use crate::analysis::{lemma_model_reachable_step, analysis_inputs, analysis_kind, analysis_outputs, analysis_tokens, analysis_view, in_slot_order, place_order, position, transition_order};
use crate::model::fire::{
    arc_allows, enabled_in, fire_fits, fire_result, fired, fits_everywhere, given, lemma_fire_exists, lemma_fired_unique, lemma_given_absent,
    lemma_taken_absent, model_reachable, model_run, run_fits, taken, tokens_in, consumes, touches,
};
use crate::model::marking::key_sorted;
use crate::model::slots::slot_index;
use crate::model::{distinct_places, ArcKind as ModelArcKind, ModelView, PlaceId as ModelPlaceId, TransitionId as ModelTransitionId};
use crate::net::{
    consumed, kind_allows, lemma_consumed_entry, lemma_produced_entry, lemma_puts_same_entries, lemma_unique_lists, produced, puts, unique_places,
    ArcKind, PlaceId, TransitionId, Weight,
};

verus! {

/// Every peek and inhibitor arc among `s` has weight one, the only weight
/// the analysis net's unweighted peek and inhibitor arcs stand for.
pub open spec fn unit_side_arcs(s: Seq<(ModelPlaceId, ModelArcKind)>) -> bool {
    forall|i: int| 0 <= i < s.len() ==> match (#[trigger] s[i]).1 {
        ModelArcKind::Consume(_) => true,
        ModelArcKind::Peek(w) => w == 1,
        ModelArcKind::Inhibit(w) => w == 1,
    }
}

/// Keys in strictly increasing slot order are at most as many as the slots.
proof fn lemma_slot_order_len(s: Seq<u64>)
    requires
        forall|i: int, j: int| 0 <= i < j < s.len() ==> slot_index(s[i]) < slot_index(s[j]),
    ensures
        s.len() > 0 ==> slot_index(s.last()) >= s.len() - 1,
        s.len() <= 0x1_0000_0000,
    decreases s.len(),
{
    if s.len() > 1 {
        let d = s.drop_last();
        lemma_slot_order_len(d);
        assert(slot_index(s[s.len() - 2]) < slot_index(s[s.len() - 1]));
    }
}

/// Each key of a slot-ordered listing is found at its own position.
proof fn lemma_positions(dom: Set<u64>, ps: Seq<u64>)
    requires
        in_slot_order(dom, ps),
    ensures
        ps.len() <= 0x1_0000_0000,
        forall|i: int| 0 <= i < ps.len() ==> #[trigger] position(ps, ps[i]) == i,
        forall|k: u64| #[trigger] dom.contains(k) ==> 0 <= position(ps, k) < ps.len() && ps[position(ps, k)] == k,
{
    lemma_slot_order_len(ps);
    assert forall|i: int| 0 <= i < ps.len() implies #[trigger] position(ps, ps[i]) == i by {
        let c = position(ps, ps[i]);
        if c < i {
            assert(slot_index(ps[c]) < slot_index(ps[i]));
        } else if i < c {
            assert(slot_index(ps[i]) < slot_index(ps[c]));
        }
    };
    assert forall|k: u64| #[trigger] dom.contains(k) implies 0 <= position(ps, k) < ps.len() && ps[position(ps, k)] == k by {
        assert(ps.contains(k));
    };
}

/// The analysis entries of the model input arcs `s` name each place once,
/// and take from the place at position `i` what `s` takes from that place.
proof fn lemma_inputs_match(s: Seq<(ModelPlaceId, ModelArcKind)>, dom: Set<u64>, ps: Seq<u64>)
    requires
        in_slot_order(dom, ps),
        distinct_places(s),
        forall|j: int| 0 <= j < s.len() ==> dom.contains((#[trigger] s[j]).0.0),
    ensures
        unique_places(analysis_inputs(s, ps)),
        forall|i: int| 0 <= i < ps.len() ==> #[trigger] consumed(analysis_inputs(s, ps), i) == taken(s, ModelPlaceId(ps[i])),
    decreases s.len(),
{
    lemma_positions(dom, ps);
    let e = analysis_inputs(s, ps);
    assert forall|a: int, b: int| 0 <= a < b < e.len() implies (#[trigger] e[a]).0 != (#[trigger] e[b]).0 by {
        assert(s[a].0 != s[b].0);
        assert(dom.contains(s[a].0.0) && dom.contains(s[b].0.0));
        assert(ps[position(ps, s[a].0.0)] == s[a].0.0);
        assert(ps[position(ps, s[b].0.0)] == s[b].0.0);
    };
    if s.len() > 0 {
        let d = s.drop_last();
        assert forall|x: int, y: int| 0 <= x < y < d.len() implies (#[trigger] d[x]).0 != (#[trigger] d[y]).0 by {
            assert(d[x] == s[x] && d[y] == s[y]);
        };
        assert forall|j: int| 0 <= j < d.len() implies dom.contains((#[trigger] d[j]).0.0) by {
            assert(d[j] == s[j]);
        };
        lemma_inputs_match(d, dom, ps);
        assert(e.drop_last() =~= analysis_inputs(d, ps));
        let last = s.last();
        assert(s[s.len() - 1] == last);
        assert(dom.contains(last.0.0));
        assert forall|i: int| 0 <= i < ps.len() implies #[trigger] consumed(e, i) == taken(s, ModelPlaceId(ps[i])) by {
            assert(consumed(analysis_inputs(d, ps), i) == taken(d, ModelPlaceId(ps[i])));
            assert(e.last() == (PlaceId(position(ps, last.0.0) as usize), analysis_kind(last.1)));
            if last.0 == ModelPlaceId(ps[i]) {
                assert(position(ps, ps[i]) == i);
            } else {
                assert(ps[position(ps, last.0.0)] == last.0.0);
            }
        };
    }
}

/// The analysis entries of the model output arcs `s` name each place once,
/// and put into the place at position `i` what `s` puts into that place.
proof fn lemma_outputs_match(s: Seq<(ModelPlaceId, u32)>, dom: Set<u64>, ps: Seq<u64>)
    requires
        in_slot_order(dom, ps),
        distinct_places(s),
        forall|j: int| 0 <= j < s.len() ==> dom.contains((#[trigger] s[j]).0.0),
    ensures
        unique_places(analysis_outputs(s, ps)),
        forall|i: int| 0 <= i < ps.len() ==> #[trigger] produced(analysis_outputs(s, ps), i) == given(s, ModelPlaceId(ps[i])),
    decreases s.len(),
{
    lemma_positions(dom, ps);
    let e = analysis_outputs(s, ps);
    assert forall|a: int, b: int| 0 <= a < b < e.len() implies (#[trigger] e[a]).0 != (#[trigger] e[b]).0 by {
        assert(s[a].0 != s[b].0);
        assert(dom.contains(s[a].0.0) && dom.contains(s[b].0.0));
        assert(ps[position(ps, s[a].0.0)] == s[a].0.0);
        assert(ps[position(ps, s[b].0.0)] == s[b].0.0);
    };
    if s.len() > 0 {
        let d = s.drop_last();
        assert forall|x: int, y: int| 0 <= x < y < d.len() implies (#[trigger] d[x]).0 != (#[trigger] d[y]).0 by {
            assert(d[x] == s[x] && d[y] == s[y]);
        };
        assert forall|j: int| 0 <= j < d.len() implies dom.contains((#[trigger] d[j]).0.0) by {
            assert(d[j] == s[j]);
        };
        lemma_outputs_match(d, dom, ps);
        assert(e.drop_last() =~= analysis_outputs(d, ps));
        let last = s.last();
        assert(s[s.len() - 1] == last);
        assert(dom.contains(last.0.0));
        assert forall|i: int| 0 <= i < ps.len() implies #[trigger] produced(e, i) == given(s, ModelPlaceId(ps[i])) by {
            assert(produced(analysis_outputs(d, ps), i) == given(d, ModelPlaceId(ps[i])));
            assert(e.last() == (PlaceId(position(ps, last.0.0) as usize), Weight(last.1 as usize)));
            if last.0 == ModelPlaceId(ps[i]) {
                assert(position(ps, ps[i]) == i);
            } else {
                assert(ps[position(ps, last.0.0)] == last.0.0);
            }
        };
    }
}

/// For an editable net whose peek and inhibitor arcs have weight one, the
/// analysis net fires as the editable net does. Take the `j`-th transition in
/// slot order and any marking `m`: the analysis transition standing for it is
/// enabled in the counts of `m` exactly when the model transition is enabled
/// in `m`, and firing it turns those counts into the counts of the marking `r`
/// that firing the model transition gives (the same tokens taken, none by a
/// peek arc, and the same tokens put).
pub proof fn lemma_analysis_fires_as_model(nv: ModelView, m: Seq<(ModelPlaceId, u32)>, j: int, r: Seq<(ModelPlaceId, u32)>)
    requires
        nv.wf(),
        in_slot_order(nv.places.dom(), place_order(nv)),
        in_slot_order(nv.transitions.dom(), transition_order(nv)),
        0 <= j < transition_order(nv).len(),
        unit_side_arcs(nv.inputs(transition_order(nv)[j])),
    ensures
        analysis_view(nv).transitions[j].enabled(analysis_tokens(nv, m)) == enabled_in(nv.inputs(transition_order(nv)[j]), m),
        fired(nv, m, transition_order(nv)[j], r)
            ==> analysis_view(nv).transitions[j].fire(analysis_tokens(nv, m)) == analysis_tokens(nv, r),
{
    let ps = place_order(nv);
    let ts = transition_order(nv);
    let dom = nv.places.dom();
    lemma_positions(dom, ps);
    let tk = ts[j];
    assert(ts.contains(tk));
    assert(nv.transitions.dom().contains(tk));
    let s = nv.inputs(tk);
    let o = nv.outputs(tk);
    assert(distinct_places(s) && distinct_places(o));
    assert forall|q: int| 0 <= q < s.len() implies dom.contains((#[trigger] s[q]).0.0) by {
        assert(dom.contains(nv.transitions[tk].inputs@[q].0.0));
    };
    assert forall|q: int| 0 <= q < o.len() implies dom.contains((#[trigger] o[q]).0.0) by {
        assert(dom.contains(nv.transitions[tk].outputs@[q].0.0));
    };
    lemma_inputs_match(s, dom, ps);
    lemma_outputs_match(o, dom, ps);
    let e = analysis_inputs(s, ps);
    let eo = analysis_outputs(o, ps);
    let a = analysis_view(nv).transitions[j];
    assert(a.inputs == puts(Seq::<(PlaceId, ArcKind)>::empty(), e));
    assert(a.output == puts(Seq::<(PlaceId, Weight)>::empty(), eo));
    let h = analysis_tokens(nv, m);
    assert forall|x: (PlaceId, ArcKind)| a.inputs.contains(x) <==> e.contains(x) by {
        lemma_puts_same_entries(e, x.0);
        lemma_unique_lists(a.inputs, x.0, x.1);
        lemma_unique_lists(e, x.0, x.1);
    };
    if enabled_in(s, m) {
        assert forall|k: int| #![trigger a.inputs[k]] 0 <= k < a.inputs.len()
            implies kind_allows(a.inputs[k].1, h[a.inputs[k].0.0 as int]) by {
            let x = a.inputs[k];
            assert(a.inputs.contains(x));
            assert(e.contains(x));
            let q = choose|q: int| 0 <= q < e.len() && e[q] == x;
            assert(e[q] == (PlaceId(position(ps, s[q].0.0) as usize), analysis_kind(s[q].1)));
            assert(arc_allows(s[q].1, tokens_in(m, s[q].0)));
            assert(dom.contains(s[q].0.0));
            assert(ps[position(ps, s[q].0.0)] == s[q].0.0);
            assert(unit_side_arcs(s));
            assert(match s[q].1 {
                ModelArcKind::Consume(_) => true,
                ModelArcKind::Peek(w) => w == 1,
                ModelArcKind::Inhibit(w) => w == 1,
            });
        };
    }
    if a.enabled(h) {
        assert forall|q: int| 0 <= q < s.len() implies #[trigger] arc_allows(s[q].1, tokens_in(m, s[q].0)) by {
            let x = e[q];
            assert(e.contains(x));
            assert(a.inputs.contains(x));
            let k = choose|k: int| 0 <= k < a.inputs.len() && a.inputs[k] == x;
            assert(kind_allows(a.inputs[k].1, h[a.inputs[k].0.0 as int]));
            assert(x == (PlaceId(position(ps, s[q].0.0) as usize), analysis_kind(s[q].1)));
            assert(dom.contains(s[q].0.0));
            assert(ps[position(ps, s[q].0.0)] == s[q].0.0);
            assert(match s[q].1 {
                ModelArcKind::Consume(_) => true,
                ModelArcKind::Peek(w) => w == 1,
                ModelArcKind::Inhibit(w) => w == 1,
            });
        };
    }
    if fired(nv, m, tk, r) {
        let f = a.fire(h);
        let g = analysis_tokens(nv, r);
        assert forall|i: int| 0 <= i < ps.len() implies f[i] == g[i] by {
            lemma_puts_same_entries(e, PlaceId(i as usize));
            lemma_puts_same_entries(eo, PlaceId(i as usize));
            lemma_consumed_entry(a.inputs, i as usize);
            lemma_consumed_entry(e, i as usize);
            lemma_produced_entry(a.output, i as usize);
            lemma_produced_entry(eo, i as usize);
            let p = ModelPlaceId(ps[i]);
            assert(consumed(a.inputs, i) == taken(s, p));
            assert(produced(a.output, i) == given(o, p));
            if !(consumes(s, p) || touches(o, p)) {
                lemma_taken_absent(s, p);
                lemma_given_absent(o, p);
            }
        };
        assert(f =~= g);
    }
}

/// Every transition of `nv` has peek and inhibitor arcs of weight one only.
pub open spec fn unit_side_net(nv: ModelView) -> bool {
    forall|t: u64| #[trigger] nv.transitions.dom().contains(t) ==> unit_side_arcs(nv.inputs(t))
}

/// The analysis transitions standing for the model transitions `ts`.
pub open spec fn analysis_ids(nv: ModelView, ts: Seq<ModelTransitionId>) -> Seq<TransitionId> {
    ts.map_values(|t: ModelTransitionId| TransitionId(position(transition_order(nv), t.0) as usize))
}

/// For an editable net whose peek and inhibitor arcs have weight one, a
/// firing sequence of its own transitions runs from a key-ordered marking `m`
/// (every firing fitting within `u32`) exactly when the matching sequence runs
/// on the analysis net from the counts of `m`, and the two end in matching
/// markings.
pub proof fn lemma_analysis_runs_as_model(nv: ModelView, m: Seq<(ModelPlaceId, u32)>, ts: Seq<ModelTransitionId>)
    requires
        nv.wf(),
        in_slot_order(nv.places.dom(), place_order(nv)),
        in_slot_order(nv.transitions.dom(), transition_order(nv)),
        unit_side_net(nv),
        key_sorted(m),
        forall|i: int| 0 <= i < ts.len() ==> nv.transitions.dom().contains((#[trigger] ts[i]).0),
        run_fits(nv, m, ts),
    ensures
        analysis_view(nv).run(analysis_tokens(nv, m), analysis_ids(nv, ts)) == match model_run(nv, m, ts) {
            Some(x) => Some(analysis_tokens(nv, x)),
            None => None::<Seq<usize>>,
        },
    decreases ts.len(),
{
    let ids = analysis_ids(nv, ts);
    if ts.len() > 0 {
        let t = ts[0];
        let tso = transition_order(nv);
        lemma_positions(nv.transitions.dom(), tso);
        assert(nv.transitions.dom().contains(t.0));
        let j = position(tso, t.0);
        assert(tso[j] == t.0);
        assert(ids[0] == TransitionId(j as usize));
        assert(ids.drop_first() =~= analysis_ids(nv, ts.drop_first()));
        let next = fire_result(nv, m, t.0);
        lemma_analysis_fires_as_model(nv, m, j, next);
        if enabled_in(nv.inputs(t.0), m) {
            lemma_fire_exists(nv, m, t.0);
            assert forall|i: int| 0 <= i < ts.drop_first().len() implies nv.transitions.dom().contains((#[trigger] ts.drop_first()[i]).0) by {
                assert(ts.drop_first()[i] == ts[i + 1]);
            };
            lemma_analysis_runs_as_model(nv, next, ts.drop_first());
        }
    } else {
        assert(ids.len() == 0);
    }
}

/// Every analysis run from the counts of a reachable key-ordered marking ends
/// in the counts of a reachable key-ordered marking.
proof fn lemma_analysis_run_lifts(nv: ModelView, m0: Seq<(ModelPlaceId, u32)>, x: Seq<(ModelPlaceId, u32)>, ats: Seq<TransitionId>)
    requires
        nv.wf(),
        in_slot_order(nv.places.dom(), place_order(nv)),
        in_slot_order(nv.transitions.dom(), transition_order(nv)),
        unit_side_net(nv),
        fits_everywhere(nv, m0),
        model_reachable(nv, m0, x),
        key_sorted(x),
        analysis_view(nv).run(analysis_tokens(nv, x), ats) is Some,
    ensures
        exists|m: Seq<(ModelPlaceId, u32)>| model_reachable(nv, m0, m)
            && analysis_tokens(nv, m) == analysis_view(nv).run(analysis_tokens(nv, x), ats).unwrap(),
    decreases ats.len(),
{
    if ats.len() == 0 {
        assert(model_reachable(nv, m0, x) && analysis_tokens(nv, x) == analysis_view(nv).run(analysis_tokens(nv, x), ats).unwrap());
    } else {
        let av = analysis_view(nv);
        let j = ats[0].0 as int;
        let tso = transition_order(nv);
        assert(av.can_fire(j, analysis_tokens(nv, x)));
        assert(0 <= j < tso.len());
        assert(tso.contains(tso[j]));
        let t = tso[j];
        assert(nv.transitions.dom().contains(t));
        let next = fire_result(nv, x, t);
        lemma_analysis_fires_as_model(nv, x, j, next);
        assert(enabled_in(nv.inputs(t), x));
        assert(fire_fits(nv, x, t));
        lemma_fire_exists(nv, x, t);
        lemma_model_reachable_step(nv, m0, x, ModelTransitionId(t));
        lemma_analysis_run_lifts(nv, m0, next, ats.drop_first());
    }
}

/// Every model run from a reachable key-ordered marking has an analysis run
/// from its counts to the counts where the model run ends.
proof fn lemma_model_run_lowers(nv: ModelView, m0: Seq<(ModelPlaceId, u32)>, x: Seq<(ModelPlaceId, u32)>, ts: Seq<ModelTransitionId>)
    requires
        nv.wf(),
        in_slot_order(nv.places.dom(), place_order(nv)),
        in_slot_order(nv.transitions.dom(), transition_order(nv)),
        unit_side_net(nv),
        fits_everywhere(nv, m0),
        model_reachable(nv, m0, x),
        key_sorted(x),
        model_run(nv, x, ts) is Some,
    ensures
        exists|ats: Seq<TransitionId>| #[trigger] analysis_view(nv).run(analysis_tokens(nv, x), ats)
            == Some(analysis_tokens(nv, model_run(nv, x, ts).unwrap())),
    decreases ts.len(),
{
    let av = analysis_view(nv);
    if ts.len() == 0 {
        assert(av.run(analysis_tokens(nv, x), Seq::<TransitionId>::empty()) == Some(analysis_tokens(nv, x)));
    } else {
        let t = ts[0].0;
        assert(enabled_in(nv.inputs(t), x));
        if !nv.transitions.dom().contains(t) {
            assert(fired(nv, x, t, x)) by {
                assert forall|p: ModelPlaceId| !(consumes(nv.inputs(t), p) || touches(nv.outputs(t), p)) by {};
            };
            lemma_fired_unique(nv, x, t, x);
            lemma_model_run_lowers(nv, m0, x, ts.drop_first());
        } else {
            let tso = transition_order(nv);
            lemma_positions(nv.transitions.dom(), tso);
            let j = position(tso, t);
            assert(tso[j] == t);
            let next = fire_result(nv, x, t);
            lemma_analysis_fires_as_model(nv, x, j, next);
            assert(fire_fits(nv, x, t));
            lemma_fire_exists(nv, x, t);
            lemma_model_reachable_step(nv, m0, x, ts[0]);
            lemma_model_run_lowers(nv, m0, next, ts.drop_first());
            let rest = choose|ats: Seq<TransitionId>| #[trigger] av.run(analysis_tokens(nv, next), ats)
                == Some(analysis_tokens(nv, model_run(nv, next, ts.drop_first()).unwrap()));
            let ats = seq![TransitionId(j as usize)] + rest;
            assert(ats[0] == TransitionId(j as usize));
            assert(ats.drop_first() =~= rest);
            assert(av.can_fire(j, analysis_tokens(nv, x)));
            assert(av.run(analysis_tokens(nv, x), ats) == Some(analysis_tokens(nv, model_run(nv, x, ts).unwrap())));
        }
    }
}

/// For an editable net whose peek and inhibitor arcs have weight one, and
/// whose firings from the markings it reaches fit within `u32`, the analysis
/// net reaches exactly the counts of the markings the editable net reaches:
/// counts are reachable on the analysis net from those of a key-ordered `m0`
/// exactly when some marking reachable from `m0` by model firing has them.
pub proof fn lemma_analysis_reaches_as_model(nv: ModelView, m0: Seq<(ModelPlaceId, u32)>, h: Seq<usize>)
    requires
        nv.wf(),
        in_slot_order(nv.places.dom(), place_order(nv)),
        in_slot_order(nv.transitions.dom(), transition_order(nv)),
        unit_side_net(nv),
        key_sorted(m0),
        fits_everywhere(nv, m0),
    ensures
        analysis_view(nv).reachable(analysis_tokens(nv, m0), h)
            <==> exists|m: Seq<(ModelPlaceId, u32)>| model_reachable(nv, m0, m) && analysis_tokens(nv, m) == h,
{
    let av = analysis_view(nv);
    let h0 = analysis_tokens(nv, m0);
    assert(model_run(nv, m0, Seq::<ModelTransitionId>::empty()) == Some(m0));
    assert(model_reachable(nv, m0, m0));
    if av.reachable(h0, h) {
        let ats = choose|ats: Seq<TransitionId>| #[trigger] av.run(h0, ats) == Some(h);
        lemma_analysis_run_lifts(nv, m0, m0, ats);
    }
    if exists|m: Seq<(ModelPlaceId, u32)>| model_reachable(nv, m0, m) && analysis_tokens(nv, m) == h {
        let m = choose|m: Seq<(ModelPlaceId, u32)>| model_reachable(nv, m0, m) && analysis_tokens(nv, m) == h;
        let ts = choose|ts: Seq<ModelTransitionId>| #[trigger] model_run(nv, m0, ts) == Some(m);
        lemma_model_run_lowers(nv, m0, m0, ts);
    }
}

} // verus!
