//! Replaying a fixed firing sequence (a witness path) on the editable net,
//! one step at a time: the markings along the route, the transitions fired
//! between them, and the marking to restore when the replay ends.
use vstd::prelude::*;

use crate::model::fire::{enabled_in, enabled_transitions};
use crate::model::marking::lookup;
use crate::model::{Marking, PetriNet, PlaceId, TransitionId};

verus! {

/// Some marking of `states` holds a token in place `p`.
pub open spec fn holds_token_on(states: Seq<Seq<(PlaceId, u32)>>, p: PlaceId) -> bool {
    exists|s: int, i: int| 0 <= s < states.len() && 0 <= i < states[s].len() && (#[trigger] states[s][i]).0 == p && states[s][i].1 > 0
}

/// The views of a list of markings.
pub open spec fn marking_views(v: Seq<Marking>) -> Seq<Seq<(PlaceId, u32)>> {
    v.map_values(|m: Marking| m@)
}

/// What a route replay is: the markings along the route (`states[i + 1]` is
/// `states[i]` after firing `transitions[i]`; a route rebuilt from a
/// coverability graph can have fewer markings), the current step, and the
/// marking of the net before the replay started.
pub struct RouteView {
    pub states: Seq<Seq<(PlaceId, u32)>>,
    pub transitions: Seq<TransitionId>,
    pub step: nat,
    pub original: Seq<(PlaceId, u32)>,
}

/// What the replay shows at its current step.
#[derive(Clone, Copy, PartialEq, Eq, Debug, Structural)]
pub enum RouteStatus {
    /// The transition about to fire.
    Fire(TransitionId),
    /// The route has more markings but no transition to reach them.
    Stuck,
    /// The route ended in a marking where nothing is enabled.
    Deadlock,
    /// The route ended.
    Finished,
}

/// A replay of a route on the canvas.
pub struct RouteModal {
    states: Vec<Marking>,
    transitions: Vec<TransitionId>,
    step: usize,
    original_marking: Marking,
    route_places: Vec<PlaceId>,
    route_transitions: Vec<TransitionId>,
}

impl View for RouteModal {
    type V = RouteView;

    closed spec fn view(&self) -> RouteView {
        RouteView {
            states: marking_views(self.states@),
            transitions: self.transitions@,
            step: self.step as nat,
            original: self.original_marking@,
        }
    }
}

impl RouteModal {
    /// The step stays on a marking of the route (or at zero for an empty
    /// route); the place and transition lists hold each member once.
    #[verifier::type_invariant]
    spec fn inv(self) -> bool {
        &&& self.step == 0 || self.step < self.states@.len()
        &&& self.route_places@.no_duplicates()
        &&& forall|p: PlaceId| #[trigger] self.route_places@.contains(p) <==> holds_token_on(marking_views(self.states@), p)
        &&& self.route_transitions@.no_duplicates()
        &&& forall|t: TransitionId| #[trigger] self.route_transitions@.contains(t) <==> self.transitions@.contains(t)
    }

    /// A replay at the first step of the route `states`, `transitions` on
    /// `net`, which it will give back its current marking when it closes.
    pub fn new(net: &PetriNet, states: Vec<Marking>, transitions: Vec<TransitionId>) -> (r: Self)
        requires
            net.wf(),
        ensures
            r@.states == marking_views(states@),
            r@.transitions == transitions@,
            r@.step == 0,
            forall|k: u64| #[trigger] lookup(r@.original, k) == if net@.places.dom().contains(k) {
                Some(net@.places[k].tokens)
            } else {
                None::<u32>
            },
    {
        let route_places = places_with_tokens(&states);
        let route_transitions = distinct_transitions(&transitions, transitions.len());
        assert(transitions@.take(transitions@.len() as int) =~= transitions@);
        RouteModal { states, transitions, step: 0, original_marking: net.marking(), route_places, route_transitions }
    }

    /// Every place that holds a token at some step of the route, each once.
    pub fn route_places(&self) -> (r: &Vec<PlaceId>)
        ensures
            r@.no_duplicates(),
            forall|p: PlaceId| #[trigger] r@.contains(p) <==> holds_token_on(self@.states, p),
    {
        proof {
            use_type_invariant(self);
        }
        &self.route_places
    }

    /// Every transition fired along the route, each once.
    pub fn route_transitions(&self) -> (r: &Vec<TransitionId>)
        ensures
            r@.no_duplicates(),
            forall|t: TransitionId| #[trigger] r@.contains(t) <==> self@.transitions.contains(t),
    {
        proof {
            use_type_invariant(self);
        }
        &self.route_transitions
    }

    /// The current step.
    pub fn step(&self) -> (r: usize)
        ensures
            r == self@.step,
    {
        self.step
    }

    /// How many markings the route has.
    pub fn state_count(&self) -> (r: usize)
        ensures
            r == self@.states.len(),
    {
        self.states.len()
    }

    /// The marking at the current step, if the route has one.
    pub fn current_state(&self) -> (r: Option<&Marking>)
        ensures
            self@.step < self@.states.len() ==> (r matches Some(m) && m@ == self@.states[self@.step as int]),
            self@.step >= self@.states.len() ==> r is None,
    {
        if self.step < self.states.len() {
            Some(&self.states[self.step])
        } else {
            None
        }
    }

    /// The transition about to fire at the current step, if any.
    pub fn current_transition(&self) -> (r: Option<TransitionId>)
        ensures
            r == if self@.step < self@.transitions.len() {
                Some(self@.transitions[self@.step as int])
            } else {
                None::<TransitionId>
            },
    {
        if self.step < self.transitions.len() {
            Some(self.transitions[self.step])
        } else {
            None
        }
    }

    /// Every transition already fired on the way to the current step, each once.
    pub fn visited_transitions(&self) -> (r: Vec<TransitionId>)
        requires
            self@.step <= self@.transitions.len(),
        ensures
            r@.no_duplicates(),
            forall|t: TransitionId| #[trigger] r@.contains(t) <==> self@.transitions.take(self@.step as int).contains(t),
    {
        distinct_transitions(&self.transitions, self.step)
    }

    /// The transition to point the camera at: the one about to fire, or else
    /// the last one fired.
    pub fn focus_transition(&self) -> (r: Option<TransitionId>)
        ensures
            r == if self@.step < self@.transitions.len() {
                Some(self@.transitions[self@.step as int])
            } else if 1 <= self@.step && self@.step - 1 < self@.transitions.len() {
                Some(self@.transitions[self@.step - 1])
            } else {
                None::<TransitionId>
            },
    {
        match self.current_transition() {
            Some(t) => Some(t),
            None => {
                if self.step >= 1 && self.step - 1 < self.transitions.len() {
                    Some(self.transitions[self.step - 1])
                } else {
                    None
                }
            },
        }
    }

    /// One step back (none before the first).
    pub fn step_back(&mut self)
        ensures
            final(self)@ == (RouteView { step: if old(self)@.step == 0 { 0 } else { (old(self)@.step - 1) as nat }, ..old(self)@ }),
    {
        proof {
            use_type_invariant(&*self);
        }
        if self.step > 0 {
            self.step = self.step - 1;
        }
    }

    /// One step forward, while the route has a next marking.
    pub fn step_forward(&mut self)
        ensures
            final(self)@ == (RouteView {
                step: if old(self)@.step + 1 < old(self)@.states.len() { old(self)@.step + 1 } else { old(self)@.step },
                ..old(self)@
            }),
    {
        proof {
            use_type_invariant(&*self);
        }
        let n = self.states.len();
        if n > 0 && self.step < n - 1 {
            self.step = self.step + 1;
        }
    }

    /// Back to the first step.
    pub fn restart(&mut self)
        ensures
            final(self)@ == (RouteView { step: 0, ..old(self)@ }),
    {
        proof {
            use_type_invariant(&*self);
        }
        self.step = 0;
    }

    /// What to show at the current step: the transition about to fire; else,
    /// while the route has more markings, that it cannot go on; else whether
    /// it ended in a deadlock.
    pub fn status(&self, net: &PetriNet) -> (r: RouteStatus)
        requires
            net.wf(),
            self@.states.len() > 0,
        ensures
            r == if self@.step < self@.transitions.len() {
                RouteStatus::Fire(self@.transitions[self@.step as int])
            } else if self@.step + 1 < self@.states.len() {
                RouteStatus::Stuck
            } else if forall|t: u64| #[trigger] net@.transitions.dom().contains(t) ==> !enabled_in(
                net@.inputs(t),
                self@.states[self@.step as int],
            ) {
                RouteStatus::Deadlock
            } else {
                RouteStatus::Finished
            },
    {
        proof {
            use_type_invariant(self);
        }
        match self.current_transition() {
            Some(t) => RouteStatus::Fire(t),
            None => {
                let n = self.states.len();
                if self.step < n - 1 {
                    RouteStatus::Stuck
                } else {
                    let enabled = enabled_transitions(net, &self.states[self.step]);
                    if enabled.len() == 0 {
                        proof {
                            assert forall|t: u64| #[trigger] net@.transitions.dom().contains(t) implies !enabled_in(
                                net@.inputs(t),
                                self@.states[self@.step as int],
                            ) by {
                                if enabled_in(net@.inputs(t), self@.states[self@.step as int]) {
                                    assert(enabled@.contains(TransitionId(t)));
                                }
                            };
                        }
                        RouteStatus::Deadlock
                    } else {
                        proof {
                            let t = enabled@[0];
                            assert(enabled@.contains(t));
                            assert(net@.transitions.dom().contains(t.0));
                        }
                        RouteStatus::Finished
                    }
                }
            },
        }
    }

    /// Gives `net` back the marking it had before the replay.
    pub fn close(&self, net: &mut PetriNet)
        requires
            old(net).wf(),
        ensures
            final(net).wf(),
            final(net)@.transitions == old(net)@.transitions,
            final(net)@.places.dom() == old(net)@.places.dom(),
            forall|k: u64| #[trigger] final(net)@.places.dom().contains(k) ==> {
                &&& final(net)@.places[k].label == old(net)@.places[k].label
                &&& final(net)@.places[k].tokens == match lookup(self@.original, k) {
                    Some(n) => n,
                    None => 0u32,
                }
            },
    {
        net.set_marking(&self.original_marking);
    }
}

/// Whether `v` holds `x`.
fn contains_place(v: &Vec<PlaceId>, x: PlaceId) -> (b: bool)
    ensures
        b == v@.contains(x),
{
    let mut i: usize = 0;
    while i < v.len()
        invariant
            i <= v@.len(),
            forall|j: int| 0 <= j < i ==> v@[j] != x,
        decreases v@.len() - i,
    {
        if v[i] == x {
            assert(v@[i as int] == x);
            return true;
        }
        i += 1;
    }
    false
}

/// Whether `v` holds `x`.
fn contains_transition(v: &Vec<TransitionId>, x: TransitionId) -> (b: bool)
    ensures
        b == v@.contains(x),
{
    let mut i: usize = 0;
    while i < v.len()
        invariant
            i <= v@.len(),
            forall|j: int| 0 <= j < i ==> v@[j] != x,
        decreases v@.len() - i,
    {
        if v[i] == x {
            assert(v@[i as int] == x);
            return true;
        }
        i += 1;
    }
    false
}

/// The places that hold a token in some marking of `states`, each once.
fn places_with_tokens(states: &Vec<Marking>) -> (r: Vec<PlaceId>)
    ensures
        r@.no_duplicates(),
        forall|p: PlaceId| #[trigger] r@.contains(p) <==> holds_token_on(marking_views(states@), p),
{
    let ghost sv = marking_views(states@);
    let mut r: Vec<PlaceId> = Vec::new();
    let mut s: usize = 0;
    while s < states.len()
        invariant
            s <= states@.len(),
            sv == marking_views(states@),
            sv.len() == states@.len(),
            r@.no_duplicates(),
            forall|p: PlaceId| #[trigger] r@.contains(p) <==> holds_token_on(sv.take(s as int), p),
        decreases states@.len() - s,
    {
        let entries = states[s].entries();
        assert(entries@ == sv[s as int]);
        let mut i: usize = 0;
        while i < entries.len()
            invariant
                s < states@.len(),
                sv == marking_views(states@),
                sv.len() == states@.len(),
                entries@ == sv[s as int],
                i <= entries@.len(),
                r@.no_duplicates(),
                forall|p: PlaceId| #[trigger] r@.contains(p) <==> (holds_token_on(sv.take(s as int), p) || exists|k: int|
                    0 <= k < i && (#[trigger] entries@[k]).0 == p && entries@[k].1 > 0),
            decreases entries@.len() - i,
        {
            let (p, n) = entries[i];
            if n > 0 && !contains_place(&r, p) {
                let ghost before = r@;
                r.push(p);
                assert forall|a: int, b: int| 0 <= a < r@.len() && 0 <= b < r@.len() && a != b implies r@[a] != r@[b] by {
                    if a == r@.len() - 1 {
                        assert(!before.contains(p));
                        assert(r@[b] == before[b]);
                    } else if b == r@.len() - 1 {
                        assert(!before.contains(p));
                        assert(r@[a] == before[a]);
                    } else {
                        assert(r@[a] == before[a] && r@[b] == before[b]);
                    }
                };
                assert forall|q: PlaceId| #[trigger] r@.contains(q) <==> (holds_token_on(sv.take(s as int), q) || exists|k: int|
                    0 <= k < i + 1 && (#[trigger] entries@[k]).0 == q && entries@[k].1 > 0) by {
                    if r@.contains(q) && q != p {
                        let j = choose|j: int| 0 <= j < r@.len() && r@[j] == q;
                        assert(before[j] == q);
                        assert(before.contains(q));
                    }
                    if q == p {
                        assert(entries@[i as int].0 == q);
                        assert(r@[r@.len() - 1] == q);
                    }
                    if !r@.contains(q) {
                        assert(!before.contains(q)) by {
                            if before.contains(q) {
                                let j = choose|j: int| 0 <= j < before.len() && before[j] == q;
                                assert(r@[j] == q);
                            }
                        };
                    }
                };
            } else {
                assert forall|q: PlaceId| #[trigger] r@.contains(q) <==> (holds_token_on(sv.take(s as int), q) || exists|k: int|
                    0 <= k < i + 1 && (#[trigger] entries@[k]).0 == q && entries@[k].1 > 0) by {
                    if exists|k: int| 0 <= k < i + 1 && (#[trigger] entries@[k]).0 == q && entries@[k].1 > 0 {
                        let k = choose|k: int| 0 <= k < i + 1 && (#[trigger] entries@[k]).0 == q && entries@[k].1 > 0;
                        if k == i {
                            assert(r@.contains(p));
                        }
                    }
                };
            }
            i += 1;
        }
        proof {
            assert forall|q: PlaceId| #[trigger] r@.contains(q) <==> holds_token_on(sv.take(s + 1), q) by {
                let t1 = sv.take(s + 1);
                if holds_token_on(t1, q) {
                    let (a, k) = choose|a: int, k: int| 0 <= a < t1.len() && 0 <= k < t1[a].len() && (#[trigger] t1[a][k]).0 == q && t1[a][k].1 > 0;
                    if a < s {
                        assert(sv.take(s as int)[a] == t1[a]);
                        assert(holds_token_on(sv.take(s as int), q));
                    } else {
                        assert(t1[a] == entries@);
                        assert(entries@[k].0 == q);
                    }
                }
                if holds_token_on(sv.take(s as int), q) {
                    let (a, k) = choose|a: int, k: int| 0 <= a < sv.take(s as int).len() && 0 <= k < sv.take(s as int)[a].len() && (#[trigger] sv.take(s as int)[a][k]).0 == q
                        && sv.take(s as int)[a][k].1 > 0;
                    assert(t1[a] == sv.take(s as int)[a]);
                    assert(t1[a][k].0 == q);
                }
                if exists|k: int| 0 <= k < entries@.len() && (#[trigger] entries@[k]).0 == q && entries@[k].1 > 0 {
                    let k = choose|k: int| 0 <= k < entries@.len() && (#[trigger] entries@[k]).0 == q && entries@[k].1 > 0;
                    assert(t1[s as int] == entries@);
                    assert(t1[s as int][k].0 == q);
                }
            };
        }
        s += 1;
    }
    assert(sv.take(s as int) =~= sv);
    r
}

/// The transitions among the first `n` of `v`, each once.
fn distinct_transitions(v: &Vec<TransitionId>, n: usize) -> (r: Vec<TransitionId>)
    requires
        n <= v@.len(),
    ensures
        r@.no_duplicates(),
        forall|t: TransitionId| #[trigger] r@.contains(t) <==> v@.take(n as int).contains(t),
{
    let mut r: Vec<TransitionId> = Vec::new();
    let mut i: usize = 0;
    while i < n
        invariant
            n <= v@.len(),
            i <= n,
            r@.no_duplicates(),
            forall|t: TransitionId| #[trigger] r@.contains(t) <==> v@.take(i as int).contains(t),
        decreases n - i,
    {
        let t = v[i];
        let ghost before = r@;
        if !contains_transition(&r, t) {
            r.push(t);
            assert forall|a: int, b: int| 0 <= a < r@.len() && 0 <= b < r@.len() && a != b implies r@[a] != r@[b] by {
                if a == r@.len() - 1 {
                    assert(r@[b] == before[b]);
                } else if b == r@.len() - 1 {
                    assert(r@[a] == before[a]);
                } else {
                    assert(r@[a] == before[a] && r@[b] == before[b]);
                }
            };
        }
        proof {
            let pre = v@.take(i as int);
            let nxt = v@.take(i + 1);
            assert(nxt =~= pre.push(t));
            assert forall|q: TransitionId| #[trigger] r@.contains(q) <==> nxt.contains(q) by {
                if nxt.contains(q) {
                    let j = choose|j: int| 0 <= j < nxt.len() && nxt[j] == q;
                    if j < i {
                        assert(pre[j] == q);
                        assert(before.contains(q));
                        let k = choose|k: int| 0 <= k < before.len() && before[k] == q;
                        assert(r@[k] == q);
                    } else {
                        if before.contains(t) {
                            let k = choose|k: int| 0 <= k < before.len() && before[k] == t;
                            assert(r@[k] == t);
                        } else {
                            assert(r@[r@.len() - 1] == t);
                        }
                    }
                }
                if r@.contains(q) {
                    let k = choose|k: int| 0 <= k < r@.len() && r@[k] == q;
                    if k < before.len() {
                        assert(before[k] == q);
                        assert(before.contains(q));
                        let j = choose|j: int| 0 <= j < pre.len() && pre[j] == q;
                        assert(nxt[j] == q);
                    } else {
                        assert(q == t);
                        assert(nxt[i as int] == t);
                    }
                }
            };
        }
        i += 1;
    }
    r
}

} // verus!
