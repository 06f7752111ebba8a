use vstd::prelude::*;

use crate::model::marking::{key_sorted, lemma_set_exists, lemma_sorted_unique, lookup, Marking};
use crate::model::slots::slot_index;
use crate::model::{distinct_places, ArcKind, ModelView, PetriNet, PlaceId, TransitionId};

verus! {

/// Why a transition could not fire.
#[derive(Clone, Copy, PartialEq, Eq, Debug, Structural)]
pub enum FireError {
    NotEnabled,
}

/// Tokens `m` records for place `p`, zero if none.
pub open spec fn tokens_in(m: Seq<(PlaceId, u32)>, p: PlaceId) -> u32 {
    match lookup(m, p.0) {
        Some(n) => n,
        None => 0u32,
    }
}

/// Whether an input arc of kind `k` lets its transition fire with `tokens` in its place.
pub open spec fn arc_allows(k: ArcKind, tokens: u32) -> bool {
    match k {
        ArcKind::Consume(w) => tokens >= w,
        ArcKind::Peek(w) => tokens >= w,
        ArcKind::Inhibit(w) => tokens < w,
    }
}

/// Every input arc in `inputs` allows firing in `m`.
pub open spec fn enabled_in(inputs: Seq<(PlaceId, ArcKind)>, m: Seq<(PlaceId, u32)>) -> bool {
    forall|i: int| 0 <= i < inputs.len() ==> #[trigger] arc_allows(inputs[i].1, tokens_in(m, inputs[i].0))
}

/// Tokens an input arc of kind `k` takes.
pub open spec fn arc_takes(k: ArcKind) -> int {
    match k {
        ArcKind::Consume(w) => w as int,
        _ => 0,
    }
}

/// Tokens the arcs in `inputs` take from place `p`.
pub open spec fn taken(inputs: Seq<(PlaceId, ArcKind)>, p: PlaceId) -> int
    decreases inputs.len(),
{
    if inputs.len() == 0 {
        0
    } else {
        taken(inputs.drop_last(), p) + if inputs.last().0 == p { arc_takes(inputs.last().1) } else { 0 }
    }
}

/// Tokens the arcs in `outputs` put into place `p`.
pub open spec fn given(outputs: Seq<(PlaceId, u32)>, p: PlaceId) -> int
    decreases outputs.len(),
{
    if outputs.len() == 0 {
        0
    } else {
        given(outputs.drop_last(), p) + if outputs.last().0 == p { outputs.last().1 as int } else { 0 }
    }
}

/// Some arc in `s` touches place `p`.
pub open spec fn touches<K>(s: Seq<(PlaceId, K)>, p: PlaceId) -> bool {
    exists|i: int| 0 <= i < s.len() && (#[trigger] s[i]).0 == p
}

/// Some consume arc in `inputs` takes from place `p`.
pub open spec fn consumes(inputs: Seq<(PlaceId, ArcKind)>, p: PlaceId) -> bool {
    exists|i: int| 0 <= i < inputs.len() && (#[trigger] inputs[i]).0 == p && inputs[i].1 is Consume
}

/// Tokens place `p` holds after transition `t` fires, when it held `before`.
pub open spec fn fired_count(net: ModelView, before: int, t: u64, p: PlaceId) -> int {
    before - taken(net.inputs(t), p) + given(net.outputs(t), p)
}

/// Firing `t` in `m` leaves every count within `u32`.
pub open spec fn fire_fits(net: ModelView, m: Seq<(PlaceId, u32)>, t: u64) -> bool {
    forall|p: PlaceId| #[trigger] fired_count(net, tokens_in(m, p) as int, t, p) <= u32::MAX
}

/// `r` is the marking `t` leads to from `m`: the counts of `m`, changed at every
/// place a consume arc or an output arc of `t` touches (an entry is added for
/// such a place if `m` has none), the other entries kept.
pub open spec fn fired(net: ModelView, m: Seq<(PlaceId, u32)>, t: u64, r: Seq<(PlaceId, u32)>) -> bool {
    &&& forall|p: PlaceId| (consumes(net.inputs(t), p) || touches(net.outputs(t), p))
        ==> #[trigger] lookup(r, p.0) == Some(fired_count(net, tokens_in(m, p) as int, t, p) as u32)
            && 0 <= fired_count(net, tokens_in(m, p) as int, t, p) <= u32::MAX
    &&& forall|p: PlaceId| !consumes(net.inputs(t), p) && !touches(net.outputs(t), p)
        ==> #[trigger] lookup(r, p.0) == lookup(m, p.0)
}

/// The marking `t` leads to from `m`, in key order.
pub open spec fn fire_result(net: ModelView, m: Seq<(PlaceId, u32)>, t: u64) -> Seq<(PlaceId, u32)> {
    choose|r: Seq<(PlaceId, u32)>| key_sorted(r) && fired(net, m, t, r)
}

/// The marking reached by firing `ts` in order from `m`, if each is enabled in turn.
pub open spec fn model_run(net: ModelView, m: Seq<(PlaceId, u32)>, ts: Seq<TransitionId>) -> Option<Seq<(PlaceId, u32)>>
    decreases ts.len(),
{
    if ts.len() == 0 {
        Some(m)
    } else if enabled_in(net.inputs(ts[0].0), m) {
        model_run(net, fire_result(net, m, ts[0].0), ts.drop_first())
    } else {
        None
    }
}

/// `m` is reached from `m0` by some firing sequence.
pub open spec fn model_reachable(net: ModelView, m0: Seq<(PlaceId, u32)>, m: Seq<(PlaceId, u32)>) -> bool {
    exists|ts: Seq<TransitionId>| #[trigger] model_run(net, m0, ts) == Some(m)
}

/// Every firing while running `ts` from `m` keeps the counts within `u32`.
pub open spec fn run_fits(net: ModelView, m: Seq<(PlaceId, u32)>, ts: Seq<TransitionId>) -> bool
    decreases ts.len(),
{
    if ts.len() == 0 {
        true
    } else if enabled_in(net.inputs(ts[0].0), m) {
        fire_fits(net, m, ts[0].0) && run_fits(net, fire_result(net, m, ts[0].0), ts.drop_first())
    } else {
        true
    }
}

/// Every firing in every marking reachable from `m0` keeps the counts within `u32`.
pub open spec fn fits_everywhere(net: ModelView, m0: Seq<(PlaceId, u32)>) -> bool {
    forall|m: Seq<(PlaceId, u32)>, t: u64|
        #[trigger] model_reachable(net, m0, m) && enabled_in(net.inputs(t), m) ==> #[trigger] fire_fits(net, m, t)
}

/// Running `ts` and then `t`.
pub proof fn lemma_model_run_push(net: ModelView, m: Seq<(PlaceId, u32)>, ts: Seq<TransitionId>, t: TransitionId)
    ensures
        model_run(net, m, ts.push(t)) == match model_run(net, m, ts) {
            Some(x) => if enabled_in(net.inputs(t.0), x) {
                Some(fire_result(net, x, t.0))
            } else {
                None
            },
            None => None,
        },
    decreases ts.len(),
{
    if ts.len() == 0 {
        assert(ts.push(t)[0] == t);
        assert(ts.push(t).drop_first() =~= Seq::<TransitionId>::empty());
        let f = fire_result(net, m, t.0);
        assert(model_run(net, f, Seq::<TransitionId>::empty()) == Some(f));
    } else {
        assert(ts.push(t)[0] == ts[0]);
        assert(ts.push(t).drop_first() =~= ts.drop_first().push(t));
        if enabled_in(net.inputs(ts[0].0), m) {
            lemma_model_run_push(net, fire_result(net, m, ts[0].0), ts.drop_first(), t);
        }
    }
}

/// Running `ts` fits when every prefix step does.
pub proof fn lemma_run_fits_push(net: ModelView, m: Seq<(PlaceId, u32)>, ts: Seq<TransitionId>, t: TransitionId)
    requires
        run_fits(net, m, ts.push(t)),
        model_run(net, m, ts) is Some,
        enabled_in(net.inputs(t.0), model_run(net, m, ts).unwrap()),
    ensures
        fire_fits(net, model_run(net, m, ts).unwrap(), t.0),
        run_fits(net, m, ts),
    decreases ts.len(),
{
    if ts.len() == 0 {
        assert(ts.push(t)[0] == t);
    } else {
        assert(ts.push(t)[0] == ts[0]);
        assert(ts.push(t).drop_first() =~= ts.drop_first().push(t));
        lemma_run_fits_push(net, fire_result(net, m, ts[0].0), ts.drop_first(), t);
    }
}

/// The markings `fired` allows are all the same.
pub proof fn lemma_fired_unique(net: ModelView, m: Seq<(PlaceId, u32)>, t: u64, r: Seq<(PlaceId, u32)>)
    requires
        key_sorted(r),
        fired(net, m, t, r),
    ensures
        fire_result(net, m, t) == r,
{
    let f = fire_result(net, m, t);
    assert(key_sorted(f) && fired(net, m, t, f));
    assert forall|k: u64| #[trigger] lookup(f, k) == lookup(r, k) by {
        let p = PlaceId(k);
        if consumes(net.inputs(t), p) || touches(net.outputs(t), p) {
            assert(lookup(f, p.0) == lookup(r, p.0));
        } else {
            assert(lookup(f, p.0) == lookup(r, p.0));
        }
    };
    lemma_sorted_unique(f, r);
}

/// Every input arc of `t` allows firing with the net's own token counts.
pub open spec fn enabled_now(net: ModelView, t: u64) -> bool {
    forall|i: int| 0 <= i < net.inputs(t).len() ==> #[trigger] arc_allows(
        net.inputs(t)[i].1,
        net.tokens(net.inputs(t)[i].0.0),
    )
}

proof fn lemma_taken_step(s: Seq<(PlaceId, ArcKind)>, i: int, p: PlaceId)
    requires
        0 <= i < s.len(),
    ensures
        taken(s.take(i + 1), p) == taken(s.take(i), p) + if s[i].0 == p { arc_takes(s[i].1) } else { 0 },
{
    assert(s.take(i + 1).drop_last() =~= s.take(i));
}

proof fn lemma_given_step(s: Seq<(PlaceId, u32)>, i: int, p: PlaceId)
    requires
        0 <= i < s.len(),
    ensures
        given(s.take(i + 1), p) == given(s.take(i), p) + if s[i].0 == p { s[i].1 as int } else { 0 },
{
    assert(s.take(i + 1).drop_last() =~= s.take(i));
}

proof fn lemma_given_nonneg(s: Seq<(PlaceId, u32)>, p: PlaceId)
    ensures
        given(s, p) >= 0,
    decreases s.len(),
{
    if s.len() > 0 {
        lemma_given_nonneg(s.drop_last(), p);
    }
}

proof fn lemma_given_prefix(s: Seq<(PlaceId, u32)>, k: int, p: PlaceId)
    requires
        0 <= k <= s.len(),
    ensures
        given(s.take(k), p) <= given(s, p),
    decreases s.len(),
{
    if k == s.len() {
        assert(s.take(k) =~= s);
    } else {
        assert(s.drop_last().take(k) =~= s.take(k));
        lemma_given_prefix(s.drop_last(), k, p);
    }
}

pub(crate) proof fn lemma_taken_absent(s: Seq<(PlaceId, ArcKind)>, p: PlaceId)
    requires
        !consumes(s, p),
    ensures
        taken(s, p) == 0,
    decreases s.len(),
{
    if s.len() > 0 {
        assert(!consumes(s.drop_last(), p)) by {
            if consumes(s.drop_last(), p) {
                let i = choose|i: int| 0 <= i < s.drop_last().len() && (#[trigger] s.drop_last()[i]).0 == p
                    && s.drop_last()[i].1 is Consume;
                assert(s[i] == s.drop_last()[i]);
            }
        };
        lemma_taken_absent(s.drop_last(), p);
        assert(s[s.len() - 1] == s.last());
    }
}

pub(crate) proof fn lemma_given_absent(s: Seq<(PlaceId, u32)>, p: PlaceId)
    requires
        !touches(s, p),
    ensures
        given(s, p) == 0,
    decreases s.len(),
{
    if s.len() > 0 {
        assert(!touches(s.drop_last(), p)) by {
            if touches(s.drop_last(), p) {
                let i = choose|i: int| 0 <= i < s.drop_last().len() && (#[trigger] s.drop_last()[i]).0 == p;
                assert(s[i] == s.drop_last()[i]);
            }
        };
        lemma_given_absent(s.drop_last(), p);
        assert(s[s.len() - 1] == s.last());
    }
}

/// Whether transition `t` is enabled in `marking`.
pub fn is_enabled(net: &PetriNet, marking: &Marking, t: TransitionId) -> (b: bool)
    requires
        net.wf(),
    ensures
        b == enabled_in(net@.inputs(t.0), marking@),
{
    let inputs = net.inputs(t);
    let mut i: usize = 0;
    while i < inputs.len()
        invariant
            inputs@ == net@.inputs(t.0),
            i <= inputs@.len(),
            forall|j: int| 0 <= j < i ==> #[trigger] arc_allows(inputs@[j].1, tokens_in(marking@, inputs@[j].0)),
        decreases inputs@.len() - i,
    {
        let (place, kind) = inputs[i];
        let tokens = marking.tokens_or_zero(place);
        let ok = match kind {
            ArcKind::Consume(w) => tokens >= w,
            ArcKind::Peek(w) => tokens >= w,
            ArcKind::Inhibit(w) => tokens < w,
        };
        if !ok {
            proof {
                assert(!arc_allows(inputs@[i as int].1, tokens_in(marking@, inputs@[i as int].0)));
            }
            return false;
        }
        i += 1;
    }
    true
}

/// The transitions of `net` enabled in `marking`, in slot order.
pub fn enabled_transitions(net: &PetriNet, marking: &Marking) -> (r: Vec<TransitionId>)
    requires
        net.wf(),
    ensures
        forall|i: int, j: int| 0 <= i < j < r@.len() ==> slot_index(r@[i].0) < slot_index(r@[j].0),
        forall|t: TransitionId| #[trigger] r@.contains(t) <==> net@.transitions.dom().contains(t.0)
            && enabled_in(net@.inputs(t.0), marking@),
{
    let ids = net.transition_ids();
    let mut r: Vec<TransitionId> = Vec::new();
    let mut i: usize = 0;
    while i < ids.len()
        invariant
            net.wf(),
            forall|a: int, b: int| 0 <= a < b < ids@.len() ==> slot_index(ids@[a].0) < slot_index(ids@[b].0),
            forall|k: u64| #[trigger] net@.transitions.dom().contains(k) <==> ids@.contains(TransitionId(k)),
            i <= ids@.len(),
            forall|a: int, b: int| 0 <= a < b < r@.len() ==> slot_index(r@[a].0) < slot_index(r@[b].0),
            forall|a: int| 0 <= a < r@.len() ==> exists|j: int| 0 <= j < i && #[trigger] ids@[j] == #[trigger] r@[a],
            forall|t: TransitionId| #[trigger] r@.contains(t) <==> (exists|j: int| 0 <= j < i && ids@[j] == t)
                && enabled_in(net@.inputs(t.0), marking@),
        decreases ids@.len() - i,
    {
        let t = ids[i];
        if is_enabled(net, marking, t) {
            let ghost prev = r@;
            r.push(t);
            proof {
                assert forall|a: int, b: int| 0 <= a < b < r@.len() implies slot_index(r@[a].0) < slot_index(r@[b].0) by {
                    if b == r@.len() - 1 {
                        assert(r@[a] == prev[a]);
                        let j = choose|j: int| 0 <= j < i && #[trigger] ids@[j] == #[trigger] prev[a];
                    } else {
                        assert(r@[a] == prev[a] && r@[b] == prev[b]);
                    }
                };
                assert forall|a: int| 0 <= a < r@.len() implies exists|j: int| 0 <= j < i + 1 && #[trigger] ids@[j] == #[trigger] r@[a] by {
                    if a < prev.len() {
                        assert(r@[a] == prev[a]);
                        let j = choose|j: int| 0 <= j < i && #[trigger] ids@[j] == #[trigger] prev[a];
                        assert(ids@[j] == r@[a]);
                    } else {
                        assert(ids@[i as int] == r@[a]);
                    }
                };
                assert forall|x: TransitionId| #[trigger] r@.contains(x) <==> (exists|j: int| 0 <= j < i + 1 && ids@[j] == x)
                    && enabled_in(net@.inputs(x.0), marking@) by {
                    if r@.contains(x) {
                        let a = choose|a: int| 0 <= a < r@.len() && r@[a] == x;
                        if a < prev.len() {
                            assert(prev[a] == x);
                            assert(prev.contains(x));
                        } else {
                            assert(ids@[i as int] == x);
                        }
                    }
                    if (exists|j: int| 0 <= j < i + 1 && ids@[j] == x) && enabled_in(net@.inputs(x.0), marking@) {
                        let j = choose|j: int| 0 <= j < i + 1 && ids@[j] == x;
                        if j < i {
                            assert(prev.contains(x));
                            let a = choose|a: int| 0 <= a < prev.len() && prev[a] == x;
                            assert(r@[a] == x);
                        } else {
                            assert(r@[prev.len() as int] == x);
                        }
                    }
                };
            }
        } else {
            proof {
                assert forall|a: int| 0 <= a < r@.len() implies exists|j: int| 0 <= j < i + 1 && #[trigger] ids@[j] == #[trigger] r@[a] by {
                    let j = choose|j: int| 0 <= j < i && #[trigger] ids@[j] == #[trigger] r@[a];
                };
                assert forall|x: TransitionId| #[trigger] r@.contains(x) <==> (exists|j: int| 0 <= j < i + 1 && ids@[j] == x)
                    && enabled_in(net@.inputs(x.0), marking@) by {
                    if (exists|j: int| 0 <= j < i + 1 && ids@[j] == x) && enabled_in(net@.inputs(x.0), marking@) {
                        let j = choose|j: int| 0 <= j < i + 1 && ids@[j] == x;
                        assert(j != i);
                    }
                };
            }
        }
        i += 1;
    }
    proof {
        assert forall|x: TransitionId| #[trigger] r@.contains(x) <==> net@.transitions.dom().contains(x.0)
            && enabled_in(net@.inputs(x.0), marking@) by {
            if net@.transitions.dom().contains(x.0) {
                assert(ids@.contains(TransitionId(x.0)));
                let j = choose|j: int| 0 <= j < ids@.len() && ids@[j] == TransitionId(x.0);
                assert(ids@[j] == x);
            }
            if exists|j: int| 0 <= j < ids@.len() && ids@[j] == x {
                let j = choose|j: int| 0 <= j < ids@.len() && ids@[j] == x;
                assert(ids@.contains(TransitionId(x.0)));
            }
        };
    }
    r
}

/// Tokens taken are never negative.
proof fn lemma_taken_nonneg(s: Seq<(PlaceId, ArcKind)>, p: PlaceId)
    ensures
        taken(s, p) >= 0,
    decreases s.len(),
{
    if s.len() > 0 {
        lemma_taken_nonneg(s.drop_last(), p);
    }
}

/// With one arc per place, the arc on a place is all it is given.
proof fn lemma_given_distinct(s: Seq<(PlaceId, u32)>, k: int)
    requires
        distinct_places(s),
        0 <= k < s.len(),
    ensures
        given(s, s[k].0) == s[k].1 as int,
    decreases s.len(),
{
    let p = s[k].0;
    if k == s.len() - 1 {
        assert(!touches(s.drop_last(), p)) by {
            if touches(s.drop_last(), p) {
                let i = choose|i: int| 0 <= i < s.drop_last().len() && (#[trigger] s.drop_last()[i]).0 == p;
                assert(s[i] == s.drop_last()[i]);
            }
        };
        lemma_given_absent(s.drop_last(), p);
    } else {
        assert(s.drop_last()[k] == s[k]);
        assert(s[s.len() - 1].0 != p);
        lemma_given_distinct(s.drop_last(), k);
    }
}

/// Tokens the input arcs `s` take from `p`, with one arc per place.
fn taken_from(s: &[(PlaceId, ArcKind)], p: PlaceId) -> (r: u32)
    requires
        distinct_places(s@),
    ensures
        r == taken(s@, p),
{
    let mut r: u32 = 0;
    let mut i: usize = 0;
    while i < s.len()
        invariant
            i <= s@.len(),
            distinct_places(s@),
            r == taken(s@.take(i as int), p),
            (forall|k: int| 0 <= k < i ==> (#[trigger] s@[k]).0 != p) ==> r == 0,
        decreases s@.len() - i,
    {
        let (q, kind) = s[i];
        proof {
            lemma_taken_step(s@, i as int, p);
        }
        if q == p {
            proof {
                assert forall|k: int| 0 <= k < i implies (#[trigger] s@[k]).0 != p by {
                    assert(s@[k].0 != s@[i as int].0);
                };
            }
            r = match kind {
                ArcKind::Consume(w) => w,
                _ => 0,
            };
        }
        i += 1;
        proof {
            if forall|k: int| 0 <= k < i ==> (#[trigger] s@[k]).0 != p {
                assert(s@[i - 1].0 != p);
            }
        }
    }
    proof {
        assert(s@.take(s@.len() as int) =~= s@);
    }
    r
}

/// Whether firing the enabled transition `t` in `marking` keeps every count
/// within `u32`.
pub fn fire_fits_check(net: &PetriNet, marking: &Marking, t: TransitionId) -> (b: bool)
    requires
        net.wf(),
    ensures
        b == fire_fits(net@, marking@, t.0),
{
    let ghost m = marking@;
    let ghost nv = net@;
    let inputs = net.inputs(t);
    let outputs = net.outputs(t);
    proof {
        if nv.transitions.dom().contains(t.0) {
            assert(distinct_places(inputs@));
            assert(distinct_places(outputs@));
        }
    }
    let mut j: usize = 0;
    while j < outputs.len()
        invariant
            m == marking@,
            nv == net@,
            inputs@ == nv.inputs(t.0),
            outputs@ == nv.outputs(t.0),
            distinct_places(inputs@),
            distinct_places(outputs@),
            j <= outputs@.len(),
            forall|k: int| 0 <= k < j ==> fired_count(nv, tokens_in(m, (#[trigger] outputs@[k]).0) as int, t.0, outputs@[k].0) <= u32::MAX,
        decreases outputs@.len() - j,
    {
        let (place, w) = outputs[j];
        let cur = marking.tokens_or_zero(place);
        let tk = taken_from(inputs, place);
        proof {
            lemma_given_distinct(outputs@, j as int);
        }
        if cur as u64 + w as u64 > u32::MAX as u64 + tk as u64 {
            proof {
                assert(place == outputs@[j as int].0 && w == outputs@[j as int].1);
                assert(given(nv.outputs(t.0), place) == w as int);
                assert(taken(nv.inputs(t.0), place) == tk as int);
                assert(cur == tokens_in(m, place));
                assert(fired_count(nv, tokens_in(m, place) as int, t.0, place) > u32::MAX);
            }
            return false;
        }
        j += 1;
    }
    proof {
        assert forall|p: PlaceId| #[trigger] fired_count(nv, tokens_in(m, p) as int, t.0, p) <= u32::MAX by {
            lemma_taken_nonneg(inputs@, p);
            if touches(outputs@, p) {
                let k = choose|k: int| 0 <= k < outputs@.len() && (#[trigger] outputs@[k]).0 == p;
                assert(fired_count(nv, tokens_in(m, outputs@[k].0) as int, t.0, outputs@[k].0) <= u32::MAX);
            } else {
                lemma_given_absent(outputs@, p);
            }
        };
    }
    true
}

/// Fires `t` in `marking` and returns the marking it leads to, leaving
/// `marking` and `net` as they are. Only consume arcs take tokens; peek and
/// inhibitor arcs only decide whether `t` is enabled. Fails when `t` is not
/// enabled in `marking`.
pub fn fire_in(net: &PetriNet, marking: &Marking, t: TransitionId) -> (r: Result<Marking, FireError>)
    requires
        net.wf(),
        enabled_in(net@.inputs(t.0), marking@) ==> fire_fits(net@, marking@, t.0),
    ensures
        r is Err <==> !enabled_in(net@.inputs(t.0), marking@),
        r is Err ==> r == Err::<Marking, FireError>(FireError::NotEnabled),
        r matches Ok(next) ==> fired(net@, marking@, t.0, next@) && next@ == fire_result(net@, marking@, t.0),
{
    if !is_enabled(net, marking, t) {
        return Err(FireError::NotEnabled);
    }
    let ghost m = marking@;
    let ghost nv = net@;
    let inputs = net.inputs(t);
    let outputs = net.outputs(t);
    proof {
        if nv.transitions.dom().contains(t.0) {
            assert(distinct_places(inputs@));
            assert(distinct_places(outputs@));
        }
    }
    let mut next = marking.duplicate();
    let mut i: usize = 0;
    while i < inputs.len()
        invariant
            inputs@ == nv.inputs(t.0),
            distinct_places(inputs@),
            enabled_in(inputs@, m),
            i <= inputs@.len(),
            forall|p: PlaceId| #[trigger] lookup(next@, p.0) == if consumes(inputs@.take(i as int), p) {
                Some((tokens_in(m, p) - taken(inputs@.take(i as int), p)) as u32)
            } else {
                lookup(m, p.0)
            },
            forall|p: PlaceId| consumes(inputs@.take(i as int), p) ==> tokens_in(m, p) >= #[trigger] taken(inputs@.take(i as int), p),
            forall|p: PlaceId| !consumes(inputs@.take(i as int), p) ==> #[trigger] taken(inputs@.take(i as int), p) == 0,
        decreases inputs@.len() - i,
    {
        let (place, kind) = inputs[i];
        proof {
            lemma_taken_step(inputs@, i as int, place);
            assert forall|p: PlaceId| p != place implies #[trigger] taken(inputs@.take(i + 1), p) == taken(inputs@.take(i as int), p) by {
                lemma_taken_step(inputs@, i as int, p);
            };
            assert forall|p: PlaceId| p != place implies #[trigger] consumes(inputs@.take(i + 1), p) == consumes(inputs@.take(i as int), p) by {
                let a = inputs@.take(i as int);
                let b = inputs@.take(i + 1);
                if consumes(b, p) {
                    let j = choose|j: int| 0 <= j < b.len() && (#[trigger] b[j]).0 == p && b[j].1 is Consume;
                    assert(j != i);
                    assert(a[j] == b[j]);
                }
                if consumes(a, p) {
                    let j = choose|j: int| 0 <= j < a.len() && (#[trigger] a[j]).0 == p && a[j].1 is Consume;
                    assert(a[j] == b[j]);
                }
            };
            assert(!consumes(inputs@.take(i as int), place)) by {
                if consumes(inputs@.take(i as int), place) {
                    let j = choose|j: int| 0 <= j < i && (#[trigger] inputs@.take(i as int)[j]).0 == place
                        && inputs@.take(i as int)[j].1 is Consume;
                    assert(inputs@[j] == inputs@.take(i as int)[j]);
                    assert(inputs@[i as int].0 == place);
                }
            };
            assert(arc_allows(inputs@[i as int].1, tokens_in(m, inputs@[i as int].0)));
        }
        match kind {
            ArcKind::Consume(w) => {
                let cur = next.tokens_or_zero(place);
                let ghost prev = next@;
                next.insert(place, cur - w);
                proof {
                    assert(inputs@.take(i + 1)[i as int] == inputs@[i as int]);
                    assert(consumes(inputs@.take(i + 1), place));
                    assert forall|p: PlaceId| #[trigger] lookup(next@, p.0) == if consumes(inputs@.take(i + 1), p) {
                        Some((tokens_in(m, p) - taken(inputs@.take(i + 1), p)) as u32)
                    } else {
                        lookup(m, p.0)
                    } by {
                        if p != place {
                            assert(lookup(next@, p.0) == lookup(prev, p.0));
                        }
                    };
                }
            },
            _ => {
                proof {
                    assert(!consumes(inputs@.take(i + 1), place)) by {
                        let b = inputs@.take(i + 1);
                        if consumes(b, place) {
                            let j = choose|j: int| 0 <= j < b.len() && (#[trigger] b[j]).0 == place && b[j].1 is Consume;
                            if j < i {
                                assert(inputs@.take(i as int)[j] == b[j]);
                            } else {
                                assert(b[j] == inputs@[i as int]);
                            }
                        }
                    };
                }
            },
        }
        i += 1;
    }
    proof {
        assert(inputs@.take(inputs@.len() as int) =~= inputs@);
    }
    let mut j: usize = 0;
    while j < outputs.len()
        invariant
            inputs@ == nv.inputs(t.0),
            outputs@ == nv.outputs(t.0),
            distinct_places(outputs@),
            fire_fits(nv, m, t.0),
            j <= outputs@.len(),
            forall|p: PlaceId| consumes(inputs@, p) ==> tokens_in(m, p) >= #[trigger] taken(inputs@, p),
            forall|p: PlaceId| !consumes(inputs@, p) ==> #[trigger] taken(inputs@, p) == 0,
            forall|p: PlaceId| #[trigger] lookup(next@, p.0) == if consumes(inputs@, p) || touches(outputs@.take(j as int), p) {
                Some((tokens_in(m, p) - taken(inputs@, p) + given(outputs@.take(j as int), p)) as u32)
            } else {
                lookup(m, p.0)
            },
            forall|p: PlaceId| !touches(outputs@.take(j as int), p) ==> #[trigger] given(outputs@.take(j as int), p) == 0,
        decreases outputs@.len() - j,
    {
        let (place, w) = outputs[j];
        proof {
            lemma_given_step(outputs@, j as int, place);
            assert forall|p: PlaceId| p != place implies #[trigger] given(outputs@.take(j + 1), p) == given(outputs@.take(j as int), p) by {
                lemma_given_step(outputs@, j as int, p);
            };
            assert forall|p: PlaceId| p != place implies #[trigger] touches(outputs@.take(j + 1), p) == touches(outputs@.take(j as int), p) by {
                let a = outputs@.take(j as int);
                let b = outputs@.take(j + 1);
                if touches(b, p) {
                    let k = choose|k: int| 0 <= k < b.len() && (#[trigger] b[k]).0 == p;
                    assert(k != j);
                    assert(a[k] == b[k]);
                }
                if touches(a, p) {
                    let k = choose|k: int| 0 <= k < a.len() && (#[trigger] a[k]).0 == p;
                    assert(a[k] == b[k]);
                }
            };
            assert(!touches(outputs@.take(j as int), place)) by {
                if touches(outputs@.take(j as int), place) {
                    let k = choose|k: int| 0 <= k < j && (#[trigger] outputs@.take(j as int)[k]).0 == place;
                    assert(outputs@[k] == outputs@.take(j as int)[k]);
                    assert(outputs@[j as int].0 == place);
                }
            };
            lemma_given_prefix(outputs@, j + 1, place);
            assert(fired_count(nv, tokens_in(m, place) as int, t.0, place) <= u32::MAX);
            lemma_given_nonneg(outputs@.take(j as int), place);
        }
        let cur = next.tokens_or_zero(place);
        let ghost prev = next@;
        next.insert(place, cur + w);
        proof {
            assert(outputs@.take(j + 1)[j as int] == outputs@[j as int]);
            assert(touches(outputs@.take(j + 1), place));
            assert forall|p: PlaceId| #[trigger] lookup(next@, p.0) == if consumes(inputs@, p) || touches(outputs@.take(j + 1), p) {
                Some((tokens_in(m, p) - taken(inputs@, p) + given(outputs@.take(j + 1), p)) as u32)
            } else {
                lookup(m, p.0)
            } by {
                if p != place {
                    assert(lookup(next@, p.0) == lookup(prev, p.0));
                }
            };
        }
        j += 1;
    }
    proof {
        assert(outputs@.take(outputs@.len() as int) =~= outputs@);
        assert forall|p: PlaceId| (consumes(nv.inputs(t.0), p) || touches(nv.outputs(t.0), p))
            implies 0 <= #[trigger] fired_count(nv, tokens_in(m, p) as int, t.0, p) <= u32::MAX by {
            lemma_given_nonneg(outputs@, p);
            assert(taken(inputs@, p) == 0 || tokens_in(m, p) >= taken(inputs@, p));
        };
    }
    let _ = next.len();
    proof {
        lemma_fired_unique(nv, m, t.0, next@);
    }
    Ok(next)
}

/// Fires `t` in the net's own marking, changing the tokens of the places its
/// consume and output arcs touch. Fails, changing nothing, when `t` is not
/// enabled.
pub fn fire(net: &mut PetriNet, t: TransitionId) -> (r: Result<(), FireError>)
    requires
        old(net).wf(),
        enabled_now(old(net)@, t.0) ==> forall|p: PlaceId|
            #[trigger] fired_count(old(net)@, old(net)@.tokens(p.0) as int, t.0, p) <= u32::MAX,
    ensures
        final(net).wf(),
        r is Err <==> !enabled_now(old(net)@, t.0),
        r is Err ==> r == Err::<(), FireError>(FireError::NotEnabled) && final(net)@.places == old(net)@.places,
        final(net)@.transitions == old(net)@.transitions,
        final(net)@.places.dom() == old(net)@.places.dom(),
        forall|k: u64| #[trigger] final(net)@.places.dom().contains(k) ==> final(net)@.places[k].label
            == old(net)@.places[k].label,
        r is Ok ==> forall|k: u64| #[trigger] final(net)@.places.dom().contains(k) ==> final(net)@.places[k].tokens
            == fired_count(old(net)@, old(net)@.tokens(k) as int, t.0, PlaceId(k)),
{
    let current = net.marking();
    let ghost nv = net@;
    proof {
        assert forall|p: PlaceId| #[trigger] tokens_in(current@, p) == nv.tokens(p.0) by {};
        assert(enabled_in(nv.inputs(t.0), current@) == enabled_now(nv, t.0)) by {
            if enabled_now(nv, t.0) {
                assert forall|i: int| 0 <= i < nv.inputs(t.0).len() implies #[trigger] arc_allows(
                    nv.inputs(t.0)[i].1,
                    tokens_in(current@, nv.inputs(t.0)[i].0),
                ) by {
                    assert(tokens_in(current@, nv.inputs(t.0)[i].0) == nv.tokens(nv.inputs(t.0)[i].0.0));
                };
            }
            if enabled_in(nv.inputs(t.0), current@) {
                assert forall|i: int| 0 <= i < nv.inputs(t.0).len() implies #[trigger] arc_allows(
                    nv.inputs(t.0)[i].1,
                    nv.tokens(nv.inputs(t.0)[i].0.0),
                ) by {
                    assert(tokens_in(current@, nv.inputs(t.0)[i].0) == nv.tokens(nv.inputs(t.0)[i].0.0));
                };
            }
        };
        if enabled_now(nv, t.0) {
            assert forall|p: PlaceId| #[trigger] fired_count(nv, tokens_in(current@, p) as int, t.0, p) <= u32::MAX by {
                assert(tokens_in(current@, p) == nv.tokens(p.0));
                assert(fired_count(nv, nv.tokens(p.0) as int, t.0, p) <= u32::MAX);
            };
        }
    }
    let next = match fire_in(net, &current, t) {
        Ok(next) => next,
        Err(e) => {
            return Err(e);
        },
    };
    net.set_marking(&next);
    proof {
        assert forall|k: u64| #[trigger] net@.places.dom().contains(k) implies net@.places[k].tokens
            == fired_count(nv, nv.tokens(k) as int, t.0, PlaceId(k)) by {
            let p = PlaceId(k);
            assert(tokens_in(current@, p) == nv.tokens(k));
            if !consumes(nv.inputs(t.0), p) && !touches(nv.outputs(t.0), p) {
                lemma_taken_absent(nv.inputs(t.0), p);
                lemma_given_absent(nv.outputs(t.0), p);
                assert(lookup(next@, k) == lookup(current@, k));
            } else {
                assert(lookup(next@, p.0) == Some(fired_count(nv, tokens_in(current@, p) as int, t.0, p) as u32));
            }
        };
    }
    Ok(())
}

/// With one arc per place, the arc on a place is all that is taken from it.
proof fn lemma_taken_distinct(s: Seq<(PlaceId, ArcKind)>, k: int)
    requires
        distinct_places(s),
        0 <= k < s.len(),
    ensures
        taken(s, s[k].0) == arc_takes(s[k].1),
    decreases s.len(),
{
    let p = s[k].0;
    if k == s.len() - 1 {
        assert(!consumes(s.drop_last(), p)) by {
            if consumes(s.drop_last(), p) {
                let i = choose|i: int| 0 <= i < s.drop_last().len() && (#[trigger] s.drop_last()[i]).0 == p
                    && s.drop_last()[i].1 is Consume;
                assert(s[i] == s.drop_last()[i]);
            }
        };
        lemma_taken_absent(s.drop_last(), p);
    } else {
        assert(s.drop_last()[k] == s[k]);
        assert(s[s.len() - 1].0 != p);
        lemma_taken_distinct(s.drop_last(), k);
    }
}

/// A peek arc of weight `w` asks exactly what a consume arc of weight `w`
/// asks of its place: turning any input arc of a transition into one or the
/// other never changes whether the transition is enabled. (The two differ
/// only in what firing takes: a peek arc takes nothing.)
pub proof fn lemma_peek_needs_what_consume_needs(inputs: Seq<(PlaceId, ArcKind)>, m: Seq<(PlaceId, u32)>, i: int, w: u32)
    requires
        0 <= i < inputs.len(),
    ensures
        enabled_in(inputs.update(i, (inputs[i].0, ArcKind::Peek(w))), m)
            == enabled_in(inputs.update(i, (inputs[i].0, ArcKind::Consume(w))), m),
        distinct_places(inputs) ==> taken(inputs.update(i, (inputs[i].0, ArcKind::Peek(w))), inputs[i].0) + w
            == taken(inputs.update(i, (inputs[i].0, ArcKind::Consume(w))), inputs[i].0),
{
    let a = inputs.update(i, (inputs[i].0, ArcKind::Peek(w)));
    let b = inputs.update(i, (inputs[i].0, ArcKind::Consume(w)));
    if enabled_in(a, m) {
        assert forall|j: int| 0 <= j < b.len() implies #[trigger] arc_allows(b[j].1, tokens_in(m, b[j].0)) by {
            assert(arc_allows(a[j].1, tokens_in(m, a[j].0)));
        };
    }
    if enabled_in(b, m) {
        assert forall|j: int| 0 <= j < a.len() implies #[trigger] arc_allows(a[j].1, tokens_in(m, a[j].0)) by {
            assert(arc_allows(b[j].1, tokens_in(m, b[j].0)));
        };
    }
    if distinct_places(inputs) {
        assert(distinct_places(a)) by {
            assert forall|x: int, y: int| 0 <= x < y < a.len() implies (#[trigger] a[x]).0 != (#[trigger] a[y]).0 by {
                assert(inputs[x].0 != inputs[y].0);
            };
        };
        assert(distinct_places(b)) by {
            assert forall|x: int, y: int| 0 <= x < y < b.len() implies (#[trigger] b[x]).0 != (#[trigger] b[y]).0 by {
                assert(inputs[x].0 != inputs[y].0);
            };
        };
        lemma_taken_distinct(a, i);
        lemma_taken_distinct(b, i);
    }
}

/// A transition whose input arcs all consume, one per place, is enabled in a
/// marking exactly when firing it leaves no place with fewer than zero tokens:
/// a consume arc of weight `w` needs its place to hold at least `w`.
pub proof fn lemma_consume_enabled_iff_enough(inputs: Seq<(PlaceId, ArcKind)>, m: Seq<(PlaceId, u32)>)
    requires
        distinct_places(inputs),
        forall|i: int| 0 <= i < inputs.len() ==> (#[trigger] inputs[i]).1 is Consume,
    ensures
        enabled_in(inputs, m) <==> forall|p: PlaceId| #[trigger] tokens_in(m, p) - taken(inputs, p) >= 0,
{
    if enabled_in(inputs, m) {
        assert forall|p: PlaceId| #[trigger] tokens_in(m, p) - taken(inputs, p) >= 0 by {
            if consumes(inputs, p) {
                let i = choose|i: int| 0 <= i < inputs.len() && (#[trigger] inputs[i]).0 == p && inputs[i].1 is Consume;
                lemma_taken_distinct(inputs, i);
                assert(arc_allows(inputs[i].1, tokens_in(m, inputs[i].0)));
            } else {
                lemma_taken_absent(inputs, p);
            }
        };
    }
    if forall|p: PlaceId| #[trigger] tokens_in(m, p) - taken(inputs, p) >= 0 {
        assert forall|i: int| 0 <= i < inputs.len() implies #[trigger] arc_allows(inputs[i].1, tokens_in(m, inputs[i].0)) by {
            lemma_taken_distinct(inputs, i);
            assert(tokens_in(m, inputs[i].0) - taken(inputs, inputs[i].0) >= 0);
        };
    }
}

/// Some key-ordered marking records `val(p)` for every place `p` listed in
/// `ps` with `sel(p)`, and agrees with `s` on every other place.
proof fn lemma_set_all_exists(s: Seq<(PlaceId, u32)>, ps: Seq<PlaceId>, sel: spec_fn(PlaceId) -> bool, val: spec_fn(PlaceId) -> u32)
    requires
        key_sorted(s),
    ensures
        exists|t: Seq<(PlaceId, u32)>| key_sorted(t) && forall|k: u64| #[trigger] lookup(t, k)
            == if ps.contains(PlaceId(k)) && sel(PlaceId(k)) { Some(val(PlaceId(k))) } else { lookup(s, k) },
    decreases ps.len(),
{
    if ps.len() == 0 {
        assert(key_sorted(s) && forall|k: u64| #[trigger] lookup(s, k)
            == if ps.contains(PlaceId(k)) && sel(PlaceId(k)) { Some(val(PlaceId(k))) } else { lookup(s, k) });
    } else {
        let d = ps.drop_last();
        let p = ps.last();
        lemma_set_all_exists(s, d, sel, val);
        let t0 = choose|t: Seq<(PlaceId, u32)>| key_sorted(t) && forall|k: u64| #[trigger] lookup(t, k)
            == if d.contains(PlaceId(k)) && sel(PlaceId(k)) { Some(val(PlaceId(k))) } else { lookup(s, k) };
        assert(ps[ps.len() - 1] == p);
        assert forall|k: u64| k != p.0 implies (ps.contains(PlaceId(k)) <==> d.contains(PlaceId(k))) by {
            if ps.contains(PlaceId(k)) {
                let i = choose|i: int| 0 <= i < ps.len() && ps[i] == PlaceId(k);
                assert(i != ps.len() - 1);
                assert(d[i] == ps[i]);
            }
            if d.contains(PlaceId(k)) {
                let i = choose|i: int| 0 <= i < d.len() && d[i] == PlaceId(k);
                assert(ps[i] == d[i]);
            }
        };
        if sel(p) {
            lemma_set_exists(t0, p, val(p));
            let t = choose|t: Seq<(PlaceId, u32)>| key_sorted(t) && lookup(t, p.0) == Some(val(p))
                && forall|k: u64| k != p.0 ==> #[trigger] lookup(t, k) == lookup(t0, k);
            assert forall|k: u64| #[trigger] lookup(t, k)
                == if ps.contains(PlaceId(k)) && sel(PlaceId(k)) { Some(val(PlaceId(k))) } else { lookup(s, k) } by {
                if k == p.0 {
                    assert(ps.contains(p));
                    assert(PlaceId(k) == p);
                }
            };
            assert(key_sorted(t));
        } else {
            assert forall|k: u64| #[trigger] lookup(t0, k)
                == if ps.contains(PlaceId(k)) && sel(PlaceId(k)) { Some(val(PlaceId(k))) } else { lookup(s, k) } by {
                if k == p.0 {
                    assert(PlaceId(k) == p);
                    if d.contains(PlaceId(k)) {
                        assert(ps.contains(PlaceId(k))) by {
                            let i = choose|i: int| 0 <= i < d.len() && d[i] == PlaceId(k);
                            assert(ps[i] == d[i]);
                        };
                    }
                }
            };
            assert(key_sorted(t0));
        }
    }
}

/// Firing an enabled transition whose firing fits, from a key-ordered
/// marking, has a result: the marking it leads to exists, in key order.
pub proof fn lemma_fire_exists(net: ModelView, m: Seq<(PlaceId, u32)>, t: u64)
    requires
        net.wf(),
        key_sorted(m),
        enabled_in(net.inputs(t), m),
        fire_fits(net, m, t),
    ensures
        key_sorted(fire_result(net, m, t)),
        fired(net, m, t, fire_result(net, m, t)),
{
    let ins = net.inputs(t);
    let outs = net.outputs(t);
    assert(distinct_places(ins)) by {
        if !net.transitions.dom().contains(t) {
            assert(ins.len() == 0);
        }
    };
    let ps = ins.map_values(|e: (PlaceId, ArcKind)| e.0) + outs.map_values(|e: (PlaceId, u32)| e.0);
    let sel = |p: PlaceId| consumes(ins, p) || touches(outs, p);
    let val = |p: PlaceId| fired_count(net, tokens_in(m, p) as int, t, p) as u32;
    lemma_set_all_exists(m, ps, sel, val);
    let r = choose|r: Seq<(PlaceId, u32)>| key_sorted(r) && forall|k: u64| #[trigger] lookup(r, k)
        == if ps.contains(PlaceId(k)) && sel(PlaceId(k)) { Some(val(PlaceId(k))) } else { lookup(m, k) };
    assert forall|p: PlaceId| (consumes(ins, p) || touches(outs, p))
        implies #[trigger] lookup(r, p.0) == Some(fired_count(net, tokens_in(m, p) as int, t, p) as u32)
            && 0 <= fired_count(net, tokens_in(m, p) as int, t, p) <= u32::MAX by {
        if consumes(ins, p) {
            let i = choose|i: int| 0 <= i < ins.len() && (#[trigger] ins[i]).0 == p && ins[i].1 is Consume;
            assert(ps[i] == p);
            lemma_taken_distinct(ins, i);
            assert(arc_allows(ins[i].1, tokens_in(m, ins[i].0)));
        } else {
            let i = choose|i: int| 0 <= i < outs.len() && (#[trigger] outs[i]).0 == p;
            assert(ps[ins.len() + i] == p);
            lemma_taken_absent(ins, p);
        }
        assert(ps.contains(p));
        assert(PlaceId(p.0) == p);
        lemma_given_nonneg(outs, p);
        assert(fire_fits(net, m, t));
        assert(fired_count(net, tokens_in(m, p) as int, t, p) <= u32::MAX);
    };
    assert forall|p: PlaceId| !consumes(ins, p) && !touches(outs, p) implies #[trigger] lookup(r, p.0) == lookup(m, p.0) by {
        assert(PlaceId(p.0) == p);
    };
    assert(fired(net, m, t, r));
    lemma_fired_unique(net, m, t, r);
}

/// An inhibitor arc of weight `w` lets its transition fire exactly when a
/// consume arc of weight `w` on the same place would not: when the place holds
/// fewer than `w` tokens.
pub proof fn lemma_inhibit_opposes_consume(p: PlaceId, w: u32, m: Seq<(PlaceId, u32)>)
    ensures
        enabled_in(seq![(p, ArcKind::Inhibit(w))], m) == !enabled_in(seq![(p, ArcKind::Consume(w))], m),
{
    let a = seq![(p, ArcKind::Inhibit(w))];
    let b = seq![(p, ArcKind::Consume(w))];
    assert(arc_allows(a[0].1, tokens_in(m, a[0].0)) == !arc_allows(b[0].1, tokens_in(m, b[0].0)));
}

} // verus!
