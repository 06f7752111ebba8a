//! The token game: firing transitions of the editable net one at a time,
//! with an undo/redo history of the markings visited and a marking to reset to.
use vstd::prelude::*;

use crate::model::fire::{enabled_now, fire, fired_count};
use crate::model::marking::lookup;
use crate::model::{Marking, ModelView, PetriNet, PlaceId, TransitionId};

verus! {

/// `m` records the tokens of every place of `v`, and nothing else.
pub open spec fn snapshot_of(v: ModelView, m: Seq<(PlaceId, u32)>) -> bool {
    forall|k: u64| #[trigger] lookup(m, k) == if v.places.dom().contains(k) {
        Some(v.places[k].tokens)
    } else {
        None::<u32>
    }
}

/// `w` is `v` with the tokens of every place set from `m` (zero where `m`
/// has no entry); labels, places and transitions are kept.
pub open spec fn restored(w: ModelView, v: ModelView, m: Seq<(PlaceId, u32)>) -> bool {
    &&& w.transitions == v.transitions
    &&& w.places.dom() == v.places.dom()
    &&& forall|k: u64| #[trigger] w.places.dom().contains(k) ==> {
        &&& w.places[k].label == v.places[k].label
        &&& w.places[k].tokens == match lookup(m, k) {
            Some(n) => n,
            None => 0u32,
        }
    }
}

/// `w` is `v` with tokens only: same places, labels and transitions.
pub open spec fn same_structure(w: ModelView, v: ModelView) -> bool {
    &&& w.transitions == v.transitions
    &&& w.places.dom() == v.places.dom()
    &&& forall|k: u64| #[trigger] w.places.dom().contains(k) ==> w.places[k].label == v.places[k].label
}

/// What the token game holds: whether it is open, the marking to reset to,
/// the markings to step back to (the last one first) and those to step
/// forward to again (the last one first).
pub struct SimView {
    pub open: bool,
    pub initial: Option<Seq<(PlaceId, u32)>>,
    pub history: Seq<Seq<(PlaceId, u32)>>,
    pub future: Seq<Seq<(PlaceId, u32)>>,
}

/// `h` is `g` with one more marking at the end, a snapshot of `v`.
pub open spec fn pushed_snapshot(h: Seq<Seq<(PlaceId, u32)>>, g: Seq<Seq<(PlaceId, u32)>>, v: ModelView) -> bool {
    &&& h.len() == g.len() + 1
    &&& h.drop_last() == g
    &&& snapshot_of(v, h.last())
}

/// Firing `t` in the token game: the game records the marking before the
/// firing and forgets what it could step forward to; the net fires `t` if it
/// is enabled and is left unchanged otherwise.
pub open spec fn fire_step_post(v: ModelView, s: SimView, t: u64, w: ModelView, r: SimView) -> bool {
    &&& r.open == s.open
    &&& r.initial == s.initial
    &&& pushed_snapshot(r.history, s.history, v)
    &&& r.future.len() == 0
    &&& same_structure(w, v)
    &&& enabled_now(v, t) ==> forall|k: u64| #[trigger] w.places.dom().contains(k) ==> w.places[k].tokens == fired_count(
        v,
        v.tokens(k) as int,
        t,
        PlaceId(k),
    )
    &&& !enabled_now(v, t) ==> w.places == v.places
}

/// Stepping back: with a marking to go back to, the net takes it and the
/// marking left is kept to step forward to again; without one nothing changes.
pub open spec fn step_back_post(v: ModelView, s: SimView, w: ModelView, r: SimView) -> bool {
    if s.history.len() > 0 {
        &&& r.open == s.open
        &&& r.initial == s.initial
        &&& r.history == s.history.drop_last()
        &&& pushed_snapshot(r.future, s.future, v)
        &&& restored(w, v, s.history.last())
    } else {
        w == v && r == s
    }
}

/// Stepping forward again: the mirror image of stepping back.
pub open spec fn step_forward_post(v: ModelView, s: SimView, w: ModelView, r: SimView) -> bool {
    if s.future.len() > 0 {
        &&& r.open == s.open
        &&& r.initial == s.initial
        &&& r.future == s.future.drop_last()
        &&& pushed_snapshot(r.history, s.history, v)
        &&& restored(w, v, s.future.last())
    } else {
        w == v && r == s
    }
}

/// The views of a list of markings.
pub open spec fn marking_list(v: Seq<Marking>) -> Seq<Seq<(PlaceId, u32)>> {
    v.map_values(|m: Marking| m@)
}

/// The token game of the editor.
pub struct Simulation {
    open: bool,
    initial: Option<Marking>,
    history: Vec<Marking>,
    future: Vec<Marking>,
}

impl View for Simulation {
    type V = SimView;

    closed spec fn view(&self) -> SimView {
        SimView {
            open: self.open,
            initial: match self.initial {
                Some(m) => Some(m@),
                None => None,
            },
            history: marking_list(self.history@),
            future: marking_list(self.future@),
        }
    }
}

impl Simulation {
    /// A closed game with no history.
    pub fn new() -> (r: Self)
        ensures
            r@ == (SimView { open: false, initial: None, history: Seq::empty(), future: Seq::empty() }),
    {
        let r = Simulation { open: false, initial: None, history: Vec::new(), future: Vec::new() };
        assert(r@.history =~= Seq::<Seq<(PlaceId, u32)>>::empty());
        assert(r@.future =~= Seq::<Seq<(PlaceId, u32)>>::empty());
        r
    }

    /// Whether the game is open.
    pub fn is_open(&self) -> (b: bool)
        ensures
            b == self@.open,
    {
        self.open
    }

    /// How many markings the game can step back to.
    pub fn history_len(&self) -> (n: usize)
        ensures
            n == self@.history.len(),
    {
        self.history.len()
    }

    /// How many markings the game can step forward to.
    pub fn future_len(&self) -> (n: usize)
        ensures
            n == self@.future.len(),
    {
        self.future.len()
    }

    /// Opens or closes the game; opening takes the net's marking as the one to
    /// reset to and starts a fresh history.
    pub fn toggle(&mut self, net: &PetriNet)
        requires
            net.wf(),
        ensures
            final(self)@.open == !old(self)@.open,
            final(self)@.open ==> final(self)@.history.len() == 0 && final(self)@.future.len() == 0
                && (final(self)@.initial matches Some(m) && snapshot_of(net@, m)),
            !final(self)@.open ==> final(self)@.history == old(self)@.history && final(self)@.future == old(self)@.future
                && final(self)@.initial == old(self)@.initial,
    {
        self.open = !self.open;
        if self.open {
            self.initial = Some(net.marking());
            self.history = Vec::new();
            self.future = Vec::new();
            assert(self@.history =~= Seq::<Seq<(PlaceId, u32)>>::empty());
            assert(self@.future =~= Seq::<Seq<(PlaceId, u32)>>::empty());
        }
    }

    /// Fires `t`, remembering the marking before it so that it can be undone.
    pub fn fire_step(&mut self, net: &mut PetriNet, t: TransitionId)
        requires
            old(net).wf(),
            enabled_now(old(net)@, t.0) ==> forall|p: PlaceId|
                #[trigger] fired_count(old(net)@, old(net)@.tokens(p.0) as int, t.0, p) <= u32::MAX,
        ensures
            final(net).wf(),
            fire_step_post(old(net)@, old(self)@, t.0, final(net)@, final(self)@),
    {
        let ghost v = net@;
        let ghost s = self@;
        let before = net.marking();
        self.history.push(before);
        self.future = Vec::new();
        let _ = fire(net, t);
        proof {
            assert(self@.history.drop_last() =~= s.history);
            assert(self@.future =~= Seq::<Seq<(PlaceId, u32)>>::empty());
        }
    }

    /// Goes back to the marking before the last firing (or step forward), if any.
    pub fn step_back(&mut self, net: &mut PetriNet)
        requires
            old(net).wf(),
        ensures
            final(net).wf(),
            step_back_post(old(net)@, old(self)@, final(net)@, final(self)@),
    {
        let ghost s = self@;
        if let Some(prev) = self.history.pop() {
            self.future.push(net.marking());
            net.set_marking(&prev);
            proof {
                assert(self@.history =~= s.history.drop_last());
                assert(self@.future.drop_last() =~= s.future);
            }
        }
    }

    /// Goes forward again to the marking last stepped back from, if any.
    pub fn step_forward(&mut self, net: &mut PetriNet)
        requires
            old(net).wf(),
        ensures
            final(net).wf(),
            step_forward_post(old(net)@, old(self)@, final(net)@, final(self)@),
    {
        let ghost s = self@;
        if let Some(next) = self.future.pop() {
            self.history.push(net.marking());
            net.set_marking(&next);
            proof {
                assert(self@.future =~= s.future.drop_last());
                assert(self@.history.drop_last() =~= s.history);
            }
        }
    }

    /// Goes back to the marking the game was opened with, forgetting the
    /// history; does nothing before the game was first opened.
    pub fn reset(&mut self, net: &mut PetriNet)
        requires
            old(net).wf(),
        ensures
            final(net).wf(),
            old(self)@.initial matches Some(m) ==> restored(final(net)@, old(net)@, m) && final(self)@ == (SimView {
                history: Seq::empty(),
                future: Seq::empty(),
                ..old(self)@
            }),
            old(self)@.initial is None ==> final(net)@ == old(net)@ && final(self)@ == old(self)@,
    {
        let ghost s = self@;
        if let Some(initial) = &self.initial {
            net.set_marking(initial);
            self.history = Vec::new();
            self.future = Vec::new();
            assert(self@.history =~= Seq::<Seq<(PlaceId, u32)>>::empty());
            assert(self@.future =~= Seq::<Seq<(PlaceId, u32)>>::empty());
        }
    }
}

/// Stepping back right after firing brings back the tokens every place had
/// before the firing, and the history the game had before it.
pub proof fn lemma_step_back_undoes_fire(v0: ModelView, s0: SimView, t: u64, v1: ModelView, s1: SimView, v2: ModelView, s2: SimView)
    requires
        fire_step_post(v0, s0, t, v1, s1),
        step_back_post(v1, s1, v2, s2),
    ensures
        v2.places.dom() == v0.places.dom(),
        forall|k: u64| #[trigger] v2.places.dom().contains(k) ==> v2.places[k] == v0.places[k],
        v2.transitions == v0.transitions,
        s2.history == s0.history,
        s2.future.len() == 1 && snapshot_of(v1, s2.future[0]),
{
    assert(s1.history.len() > 0);
    assert forall|k: u64| #[trigger] v2.places.dom().contains(k) implies v2.places[k] == v0.places[k] by {
        assert(lookup(s1.history.last(), k) == Some(v0.places[k].tokens));
    };
    assert(s2.future.drop_last() == s1.future);
}

/// Stepping forward right after stepping back brings back the tokens every
/// place had before stepping back.
pub proof fn lemma_step_forward_redoes_back(v0: ModelView, s0: SimView, v1: ModelView, s1: SimView, v2: ModelView, s2: SimView)
    requires
        s0.history.len() > 0,
        step_back_post(v0, s0, v1, s1),
        step_forward_post(v1, s1, v2, s2),
    ensures
        v2.places.dom() == v0.places.dom(),
        forall|k: u64| #[trigger] v2.places.dom().contains(k) ==> v2.places[k] == v0.places[k],
        v2.transitions == v0.transitions,
        s2.future == s0.future,
        s2.history.len() == s0.history.len(),
        s2.history.drop_last() == s0.history.drop_last(),
{
    assert(s1.future.len() > 0);
    assert forall|k: u64| #[trigger] v2.places.dom().contains(k) implies v2.places[k] == v0.places[k] by {
        assert(lookup(s1.future.last(), k) == Some(v0.places[k].tokens));
    };
}

} // verus!
