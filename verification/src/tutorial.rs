//! The guided tutorial: its steps, when each counts as done (judged from the
//! net itself), and where the spotlight points meanwhile.
use vstd::prelude::*;

use crate::editor::EditMode;
use crate::model::marking::lookup;
use crate::model::{ArcKind, Marking, ModelView, PetriNet, PlaceId};
use crate::panels::own_marking;
use crate::simulate::snapshot_of;

verus! {

/// How many steps the tutorial has.
pub const STEP_COUNT: usize = 7;

/// The step that asks to try peek and inhibitor arcs.
pub const ARC_TYPE_STEP: usize = 3;

/// The step that asks to fire the transition.
pub const FIRE_STEP: usize = 5;

/// The title of step `i`, as shown.
pub open spec fn step_title_text(i: nat) -> Seq<char> {
    if i == 0 {
        "Agregá un place"@
    } else if i == 1 {
        "Agregá una transition"@
    } else if i == 2 {
        "Conectá un arco"@
    } else if i == 3 {
        "Probá los tipos de arco"@
    } else if i == 4 {
        "Agregá un token"@
    } else if i == 5 {
        "Dispará la transition"@
    } else {
        "Mirá el análisis"@
    }
}

/// The title of step `i`.
pub fn step_title(i: usize) -> (r: &'static str)
    requires
        i < STEP_COUNT,
    ensures
        r@ == step_title_text(i as nat),
{
    if i == 0 {
        "Agregá un place"
    } else if i == 1 {
        "Agregá una transition"
    } else if i == 2 {
        "Conectá un arco"
    } else if i == 3 {
        "Probá los tipos de arco"
    } else if i == 4 {
        "Agregá un token"
    } else if i == 5 {
        "Dispará la transition"
    } else {
        "Mirá el análisis"
    }
}

/// The instructions of step `i`, as shown.
pub open spec fn step_body_text(i: nat) -> Seq<char> {
    if i == 0 {
        "Presioná P (o el ícono de círculo en la barra de abajo) y hacé click en el canvas para crear un place."@
    } else if i == 1 {
        "Presioná T (o el ícono de rectángulo) y hacé click en el canvas para crear una transition."@
    } else if i == 2 {
        "Presioná C (modo Conectar) y hacé click primero en el place, después en la transition, para trazar un arco entre ellos."@
    } else if i == 3 {
        "Volvé a modo Seleccionar (V) y hacé click en el arco. En el panel de Selección probá Peek e Inhibit, y después dejalo de nuevo en Consume para poder simular."@
    } else if i == 4 {
        "Hacé click en el place. En el panel de Selección, subí el stepper de Tokens a 1 o más."@
    } else if i == 5 {
        "Con al menos un token en el place de entrada, la transition queda habilitada. Hacé click directo sobre ella para dispararla."@
    } else {
        "Abrí Ver → Propiedades del net para ver acotamiento, liveness, reversibilidad y deadlocks de tu red."@
    }
}

/// The instructions of step `i`.
pub fn step_body(i: usize) -> (r: &'static str)
    requires
        i < STEP_COUNT,
    ensures
        r@ == step_body_text(i as nat),
{
    if i == 0 {
        "Presioná P (o el ícono de círculo en la barra de abajo) y hacé click en el canvas para crear un place."
    } else if i == 1 {
        "Presioná T (o el ícono de rectángulo) y hacé click en el canvas para crear una transition."
    } else if i == 2 {
        "Presioná C (modo Conectar) y hacé click primero en el place, después en la transition, para trazar un arco entre ellos."
    } else if i == 3 {
        "Volvé a modo Seleccionar (V) y hacé click en el arco. En el panel de Selección probá Peek e Inhibit, y después dejalo de nuevo en Consume para poder simular."
    } else if i == 4 {
        "Hacé click en el place. En el panel de Selección, subí el stepper de Tokens a 1 o más."
    } else if i == 5 {
        "Con al menos un token en el place de entrada, la transition queda habilitada. Hacé click directo sobre ella para dispararla."
    } else {
        "Abrí Ver → Propiedades del net para ver acotamiento, liveness, reversibilidad y deadlocks de tu red."
    }
}

/// Where the tutorial's spotlight points.
#[derive(Clone, Copy, PartialEq, Eq, Debug, Structural)]
pub enum TutorialTarget {
    Toolbar,
    Canvas,
    Dock,
    ViewMenu,
}

/// Where to point the spotlight at step `step`: the toolbar until the step's
/// mode is picked, then the canvas (the dock, once something is selected, for
/// the steps done in the selection panel), and the view menu at the last step.
pub open spec fn spotlight_spec(mode: EditMode, has_selection: bool, step: nat) -> TutorialTarget {
    if step == 0 {
        if mode != EditMode::AddPlace { TutorialTarget::Toolbar } else { TutorialTarget::Canvas }
    } else if step == 1 {
        if mode != EditMode::AddTransition { TutorialTarget::Toolbar } else { TutorialTarget::Canvas }
    } else if step == 2 {
        if mode != EditMode::Connect { TutorialTarget::Toolbar } else { TutorialTarget::Canvas }
    } else if step == 3 || step == 4 {
        if mode != EditMode::Select {
            TutorialTarget::Toolbar
        } else if !has_selection {
            TutorialTarget::Canvas
        } else {
            TutorialTarget::Dock
        }
    } else if step == 5 {
        TutorialTarget::Canvas
    } else {
        TutorialTarget::ViewMenu
    }
}

/// Where to point the spotlight at step `step`.
pub fn spotlight(mode: EditMode, has_selection: bool, step: usize) -> (r: TutorialTarget)
    ensures
        r == spotlight_spec(mode, has_selection, step as nat),
{
    if step == 0 {
        if mode != EditMode::AddPlace { TutorialTarget::Toolbar } else { TutorialTarget::Canvas }
    } else if step == 1 {
        if mode != EditMode::AddTransition { TutorialTarget::Toolbar } else { TutorialTarget::Canvas }
    } else if step == 2 {
        if mode != EditMode::Connect { TutorialTarget::Toolbar } else { TutorialTarget::Canvas }
    } else if step == 3 || step == 4 {
        if mode != EditMode::Select {
            TutorialTarget::Toolbar
        } else if !has_selection {
            TutorialTarget::Canvas
        } else {
            TutorialTarget::Dock
        }
    } else if step == 5 {
        TutorialTarget::Canvas
    } else {
        TutorialTarget::ViewMenu
    }
}

/// The kind of the first input arc of the first transition, in `order`, that has one.
pub open spec fn first_input_kind(v: ModelView, order: Seq<u64>) -> Option<ArcKind>
    decreases order.len(),
{
    if order.len() == 0 {
        None
    } else if v.inputs(order[0]).len() > 0 {
        Some(v.inputs(order[0])[0].1)
    } else {
        first_input_kind(v, order.drop_first())
    }
}

/// The kind of the arc the tutorial is about: the first input arc of the
/// first transition, in slot order, that has one.
pub open spec fn tutorial_arc(v: ModelView) -> Option<ArcKind> {
    first_input_kind(v, crate::analysis::transition_order(v))
}

/// What the tutorial keeps: its step, the marking when the firing step
/// began, and whether the arc was seen as peek or inhibitor during the arc step.
pub struct TutorialView {
    pub step: nat,
    pub entry: Option<Seq<(PlaceId, u32)>>,
    pub tried: bool,
}

/// The tutorial `s` moved to step `step` of the net `v`: the arc step starts
/// untried, and the firing step remembers the marking it starts from.
pub open spec fn entered(s: TutorialView, v: ModelView, step: nat) -> TutorialView {
    TutorialView {
        step,
        entry: if step == FIRE_STEP { Some(own_marking(v)) } else { s.entry },
        tried: if step == ARC_TYPE_STEP { false } else { s.tried },
    }
}

/// Whether the step of `s` is done in the net `v` (`properties_open`: the
/// properties panel is open).
pub open spec fn step_done_spec(v: ModelView, properties_open: bool, s: TutorialView) -> bool {
    if s.step == 0 {
        v.places.dom().len() >= 1
    } else if s.step == 1 {
        v.transitions.dom().len() >= 1
    } else if s.step == 2 {
        exists|t: u64| #[trigger] v.transitions.dom().contains(t) && (v.inputs(t).len() > 0 || v.outputs(t).len() > 0)
    } else if s.step == 3 {
        s.tried && tutorial_arc(v) matches Some(ArcKind::Consume(_))
    } else if s.step == 4 {
        exists|k: u64| #[trigger] v.places.dom().contains(k) && v.places[k].tokens > 0
    } else if s.step == 5 {
        s.entry matches Some(e) && e != own_marking(v)
    } else {
        properties_open
    }
}

/// The tutorial state once it has caught up with `v` at its current step:
/// the firing step has a starting marking, and the arc step has noted whether
/// the arc is peek or inhibitor now.
pub open spec fn caught_up(v: ModelView, s: TutorialView) -> TutorialView {
    TutorialView {
        step: s.step,
        entry: if s.step == FIRE_STEP && s.entry is None {
            Some(own_marking(v))
        } else {
            s.entry
        },
        tried: if s.step == ARC_TYPE_STEP && (tutorial_arc(v) matches Some(ArcKind::Peek(_)) || tutorial_arc(v) matches Some(
            ArcKind::Inhibit(_),
        )) {
            true
        } else {
            s.tried
        },
    }
}

/// The tutorial.
pub struct TutorialState {
    step: usize,
    entry_marking: Option<Marking>,
    arc_kind_tried: bool,
}

impl View for TutorialState {
    type V = TutorialView;

    closed spec fn view(&self) -> TutorialView {
        TutorialView {
            step: self.step as nat,
            entry: match self.entry_marking {
                Some(m) => Some(m@),
                None => None,
            },
            tried: self.arc_kind_tried,
        }
    }
}

impl TutorialState {
    #[verifier::type_invariant]
    spec fn inv(self) -> bool {
        self.step < STEP_COUNT
    }

    /// The tutorial at its first step.
    pub fn new() -> (r: Self)
        ensures
            r@ == (TutorialView { step: 0, entry: None, tried: false }),
    {
        TutorialState { step: 0, entry_marking: None, arc_kind_tried: false }
    }

    /// The current step.
    pub fn step(&self) -> (r: usize)
        ensures
            r == self@.step,
            r < STEP_COUNT,
    {
        proof {
            use_type_invariant(self);
        }
        self.step
    }

    /// Moves to step `step`: the arc step starts untried, the firing step
    /// remembers the marking it starts from.
    pub fn enter_step(&mut self, net: &PetriNet, step: usize)
        requires
            net.wf(),
            step < STEP_COUNT,
        ensures
            final(self)@ == entered(old(self)@, net@, step as nat),
    {
        self.step = step;
        if step == ARC_TYPE_STEP {
            self.arc_kind_tried = false;
        }
        if step == FIRE_STEP {
            self.entry_marking = Some(own_marking_of(net));
        }
    }

    /// Whether the current step is done in `net`.
    pub fn step_done(&self, net: &PetriNet, properties_open: bool) -> (b: bool)
        requires
            net.wf(),
        ensures
            b == step_done_spec(net@, properties_open, self@),
    {
        let ghost v = net@;
        if self.step == 0 {
            let ids = net.place_ids();
            proof {
                crate::analysis::lemma_place_ids_in_order(v, ids@);
                lemma_count(v.places.dom(), crate::analysis::place_order(v));
                assert(crate::analysis::place_keys(ids@).len() == ids@.len());
            }
            ids.len() >= 1
        } else if self.step == 1 {
            let ids = net.transition_ids();
            proof {
                crate::analysis::lemma_transition_ids_in_order(v, ids@);
                lemma_count(v.transitions.dom(), crate::analysis::transition_order(v));
                assert(crate::analysis::transition_keys(ids@).len() == ids@.len());
            }
            ids.len() >= 1
        } else if self.step == 2 {
            let ids = net.transition_ids();
            let mut i: usize = 0;
            while i < ids.len()
                invariant
                    net.wf(),
                    v == net@,
                    self.step == 2,
                    i <= ids@.len(),
                    forall|k: u64| #[trigger] v.transitions.dom().contains(k) <==> ids@.contains(crate::model::TransitionId(k)),
                    forall|a: int| 0 <= a < i ==> v.inputs((#[trigger] ids@[a]).0).len() == 0 && v.outputs(ids@[a].0).len() == 0,
                decreases ids@.len() - i,
            {
                let t = ids[i];
                if net.inputs(t).len() > 0 || net.outputs(t).len() > 0 {
                    assert(ids@[i as int] == t);
                    assert(ids@.contains(t));
                    assert(v.transitions.dom().contains(t.0));
                    assert(v.inputs(t.0).len() > 0 || v.outputs(t.0).len() > 0);
                    return true;
                }
                i += 1;
            }
            proof {
                assert forall|t: u64| #[trigger] v.transitions.dom().contains(t) implies !(v.inputs(t).len() > 0 || v.outputs(t).len() > 0) by {
                    let a = choose|a: int| 0 <= a < ids@.len() && ids@[a] == crate::model::TransitionId(t);
                    assert(v.inputs(ids@[a].0).len() == 0);
                };
            }
            false
        } else if self.step == ARC_TYPE_STEP {
            self.arc_kind_tried && match single_arc_kind(net) {
                Some(ArcKind::Consume(_)) => true,
                _ => false,
            }
        } else if self.step == 4 {
            let m = net.marking();
            let entries = m.entries();
            let mut i: usize = 0;
            while i < entries.len()
                invariant
                    i <= entries@.len(),
                    entries@ == m@,
                    v == net@,
                    self.step == 4,
                    crate::model::marking::key_sorted(m@),
                    snapshot_of(v, m@),
                    forall|a: int| 0 <= a < i ==> (#[trigger] entries@[a]).1 == 0,
                decreases entries@.len() - i,
            {
                if entries[i].1 > 0 {
                    proof {
                        let k = entries@[i as int].0.0;
                        assert(lookup(m@, k) is Some) by {
                            assert(m@[i as int].0.0 == k);
                        };
                        lemma_lookup_entry(m@, i as int);
                        assert(v.places.dom().contains(k));
                        assert(v.places[k].tokens > 0);
                    }
                    return true;
                }
                i += 1;
            }
            proof {
                assert forall|k: u64| #[trigger] v.places.dom().contains(k) implies !(v.places[k].tokens > 0) by {
                    assert(lookup(m@, k) == Some(v.places[k].tokens));
                    let a = choose|a: int| 0 <= a < m@.len() && (#[trigger] m@[a]).0.0 == k;
                    lemma_lookup_entry(m@, a);
                };
            }
            false
        } else if self.step == FIRE_STEP {
            match &self.entry_marking {
                Some(e) => {
                    let now = own_marking_of(net);
                    !e.same(&now)
                },
                None => false,
            }
        } else {
            properties_open
        }
    }

    /// Catches up with `net` before a frame: starts the firing step's marking
    /// if it is missing, notes that the arc was seen as peek or inhibitor
    /// during the arc step, and moves on when the step is done. Returns whether
    /// the tutorial stays open (it closes once the last step is done).
    pub fn update(&mut self, net: &PetriNet, properties_open: bool) -> (open: bool)
        requires
            net.wf(),
        ensures
            ({
                let c = caught_up(net@, old(self)@);
                if !step_done_spec(net@, properties_open, c) {
                    open && final(self)@ == c
                } else if c.step + 1 == STEP_COUNT {
                    !open && final(self)@ == c
                } else {
                    &&& open
                    &&& final(self)@.step == c.step + 1
                    &&& final(self)@.tried == if c.step + 1 == ARC_TYPE_STEP { false } else { c.tried }
                    &&& final(self)@.entry == if c.step + 1 == FIRE_STEP { Some(own_marking(net@)) } else { c.entry }
                }
            }),
    {
        proof {
            use_type_invariant(&*self);
        }
        if self.step == FIRE_STEP && self.entry_marking.is_none() {
            self.entry_marking = Some(own_marking_of(net));
        }
        if self.step == ARC_TYPE_STEP {
            match single_arc_kind(net) {
                Some(ArcKind::Peek(_)) | Some(ArcKind::Inhibit(_)) => {
                    self.arc_kind_tried = true;
                },
                _ => {},
            }
        }
        if self.step_done(net, properties_open) {
            if self.step + 1 == STEP_COUNT {
                return false;
            }
            let next = self.step + 1;
            self.enter_step(net, next);
        }
        true
    }

    /// Back one step (the "Anterior" button), if not at the first.
    pub fn previous(&mut self, net: &PetriNet)
        requires
            net.wf(),
        ensures
            old(self)@.step == 0 ==> final(self)@ == old(self)@,
            old(self)@.step > 0 ==> final(self)@ == entered(old(self)@, net@, (old(self)@.step - 1) as nat),
    {
        proof {
            use_type_invariant(&*self);
        }
        if self.step > 0 {
            let prev = self.step - 1;
            self.enter_step(net, prev);
        }
    }

    /// On one step (the "Siguiente" button); at the last step it closes
    /// instead. Returns whether the tutorial stays open.
    pub fn next(&mut self, net: &PetriNet) -> (open: bool)
        requires
            net.wf(),
        ensures
            open == (old(self)@.step + 1 < STEP_COUNT),
            open ==> final(self)@ == entered(old(self)@, net@, old(self)@.step + 1),
            !open ==> final(self)@ == old(self)@,
    {
        proof {
            use_type_invariant(&*self);
        }
        if self.step + 1 == STEP_COUNT {
            return false;
        }
        let next = self.step + 1;
        self.enter_step(net, next);
        true
    }
}

/// A set listed without repeats in slot order has as many members as the list.
proof fn lemma_count(dom: Set<u64>, s: Seq<u64>)
    requires
        crate::analysis::in_slot_order(dom, s),
    ensures
        dom.len() == s.len(),
        dom.finite(),
{
    assert forall|i: int, j: int| 0 <= i < s.len() && 0 <= j < s.len() && i != j implies s[i] != s[j] by {
        if i < j {
            assert(crate::model::slots::slot_index(s[i]) < crate::model::slots::slot_index(s[j]));
        } else {
            assert(crate::model::slots::slot_index(s[j]) < crate::model::slots::slot_index(s[i]));
        }
    };
    s.unique_seq_to_set();
    assert(s.to_set() =~= dom);
}

/// The entry at position `i` is what `lookup` finds for its key, in a key-ordered marking.
proof fn lemma_lookup_entry(m: Seq<(PlaceId, u32)>, i: int)
    requires
        0 <= i < m.len(),
        crate::model::marking::key_sorted(m),
    ensures
        lookup(m, m[i].0.0) == Some(m[i].1),
{
    let k = m[i].0.0;
    let c = choose|c: int| 0 <= c < m.len() && (#[trigger] m[c]).0.0 == k;
    assert(0 <= c < m.len() && m[c].0.0 == k);
    if c != i {
        if c < i {
            assert(crate::model::marking::key_rank(m[c].0.0) < crate::model::marking::key_rank(m[i].0.0));
        } else {
            assert(crate::model::marking::key_rank(m[i].0.0) < crate::model::marking::key_rank(m[c].0.0));
        }
    }
}

/// The net's own marking.
fn own_marking_of(net: &PetriNet) -> (m: Marking)
    requires
        net.wf(),
    ensures
        m@ == own_marking(net@),
        snapshot_of(net@, m@),
{
    let m = net.marking();
    let _ = m.len();
    proof {
        let c = own_marking(net@);
        assert(crate::model::marking::key_sorted(c) && snapshot_of(net@, c));
        assert forall|k: u64| #[trigger] lookup(c, k) == lookup(m@, k) by {};
        crate::model::marking::lemma_sorted_unique(c, m@);
    }
    m
}

/// The kind of the arc the tutorial is about.
pub fn single_arc_kind(net: &PetriNet) -> (r: Option<ArcKind>)
    requires
        net.wf(),
    ensures
        r == tutorial_arc(net@),
{
    let ghost v = net@;
    let ids = net.transition_ids();
    proof {
        crate::analysis::lemma_transition_ids_in_order(v, ids@);
    }
    let ghost to = crate::analysis::transition_order(v);
    let mut i: usize = 0;
    assert(to.skip(0) =~= to);
    while i < ids.len()
        invariant
            net.wf(),
            v == net@,
            to == crate::analysis::transition_order(v),
            crate::analysis::transition_keys(ids@) == to,
            i <= ids@.len(),
            first_input_kind(v, to.skip(i as int)) == tutorial_arc(v),
        decreases ids@.len() - i,
    {
        let t = ids[i];
        assert(to[i as int] == t.0);
        assert(to.skip(i as int)[0] == t.0);
        let ins = net.inputs(t);
        if ins.len() > 0 {
            return Some(ins[0].1);
        }
        assert(to.skip(i as int).drop_first() =~= to.skip(i + 1));
        i += 1;
    }
    assert(to.skip(i as int).len() == 0);
    None
}

} // verus!
