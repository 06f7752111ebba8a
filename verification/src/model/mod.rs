//! The editable net behind the editor: labelled places and transitions kept
//! under stable keys (a slot map each), arcs with weighted consume, peek and
//! inhibitor kinds, and the current token count of each place.
use vstd::prelude::*;

pub mod slots;
pub mod marking;
pub mod fire;

use self::slots::{
    PlaceSlots, TransitionSlots, place_slots, place_slots_clone, place_slots_get, transition_slots_clone, place_slots_insert, place_slots_keys, place_slots_new, place_slots_remove,
    place_slots_label_mut, place_slots_set, slot_index, slot_key, transition_slots_label_mut, transition_slots, transition_slots_get, transition_slots_insert,
    transition_slots_keys, transition_slots_new, transition_slots_remove, transition_slots_set,
};
pub use self::marking::Marking;
use self::marking::lookup;

verus! {

/// Key of a place of an editable net (the slot map key, as a 64-bit integer).
#[derive(Clone, Copy, PartialEq, Eq, PartialOrd, Ord, Hash, Debug, Structural)]
pub struct PlaceId(pub u64);

/// Key of a transition of an editable net (the slot map key, as a 64-bit integer).
#[derive(Clone, Copy, PartialEq, Eq, PartialOrd, Ord, Hash, Debug, Structural)]
pub struct TransitionId(pub u64);

/// Kind of an input arc (place to transition), with its weight. Output arcs
/// always produce tokens and carry a plain weight.
#[derive(Clone, Copy, PartialEq, Eq, Hash, Debug, Structural)]
pub enum ArcKind {
    /// Normal arc: needs `tokens >= weight` and consumes `weight` tokens.
    Consume(u32),
    /// Test arc: needs `tokens >= weight` and consumes nothing.
    Peek(u32),
    /// Inhibitor arc: needs `tokens < weight` and consumes nothing.
    Inhibit(u32),
}

/// Weight carried by an input arc of kind `k`.
pub open spec fn kind_weight(k: ArcKind) -> u32 {
    match k {
        ArcKind::Consume(w) => w,
        ArcKind::Peek(w) => w,
        ArcKind::Inhibit(w) => w,
    }
}

impl ArcKind {
    /// The weight the arc carries, whatever its kind.
    pub fn weight(self) -> (w: u32)
        ensures
            w == kind_weight(self),
    {
        match self {
            ArcKind::Consume(w) => w,
            ArcKind::Peek(w) => w,
            ArcKind::Inhibit(w) => w,
        }
    }
}

/// Why an arc could not be added.
#[derive(Clone, Copy, PartialEq, Eq, Debug, Structural)]
pub enum ArcError {
    UnknownPlace,
    UnknownTransition,
    ArcAlreadyExists,
}

/// A place as the net stores it.
#[derive(Clone)]
pub struct PlaceData {
    pub label: String,
    pub tokens: u32,
}

/// A transition as the net stores it: its input arcs `(place, kind)` and its
/// output arcs `(place, weight)`, each in the order they were added.
#[derive(Clone)]
pub struct TransitionData {
    pub label: String,
    pub inputs: Vec<(PlaceId, ArcKind)>,
    pub outputs: Vec<(PlaceId, u32)>,
}

/// Mathematical model of an editable [`PetriNet`]: what it stores under each
/// place key and each transition key.
pub struct ModelView {
    pub places: Map<u64, PlaceData>,
    pub transitions: Map<u64, TransitionData>,
}

/// Some entry of `s` is for place `p`.
pub open spec fn has_place<K>(s: Seq<(PlaceId, K)>, p: PlaceId) -> bool {
    exists|i: int| 0 <= i < s.len() && (#[trigger] s[i]).0 == p
}

/// No place has two entries in `s`.
pub open spec fn distinct_places<K>(s: Seq<(PlaceId, K)>) -> bool {
    forall|i: int, j: int| 0 <= i < j < s.len() ==> (#[trigger] s[i]).0 != (#[trigger] s[j]).0
}

/// `s` without the entries for place `p`, the others in order.
pub open spec fn without_place<K>(s: Seq<(PlaceId, K)>, p: PlaceId) -> Seq<(PlaceId, K)>
    decreases s.len(),
{
    if s.len() == 0 {
        s
    } else {
        let r = without_place(s.drop_last(), p);
        if s.last().0 == p {
            r
        } else {
            r.push(s.last())
        }
    }
}

impl ModelView {
    /// Finitely many keys, each of slot map shape; every arc touches a place of
    /// the net; no transition has two input arcs, or two output arcs, on one place.
    pub open spec fn wf(self) -> bool {
        &&& self.places.dom().finite()
        &&& self.transitions.dom().finite()
        &&& forall|k: u64| #[trigger] self.places.dom().contains(k) ==> slot_key(k)
        &&& forall|k: u64| #[trigger] self.transitions.dom().contains(k) ==> slot_key(k)
        &&& forall|t: u64, i: int| self.transitions.dom().contains(t) && 0 <= i < self.transitions[t].inputs@.len()
            ==> self.places.dom().contains((#[trigger] self.transitions[t].inputs@[i]).0.0)
        &&& forall|t: u64, i: int| self.transitions.dom().contains(t) && 0 <= i < self.transitions[t].outputs@.len()
            ==> self.places.dom().contains((#[trigger] self.transitions[t].outputs@[i]).0.0)
        &&& forall|t: u64| #[trigger] self.transitions.dom().contains(t) ==> distinct_places(self.transitions[t].inputs@)
        &&& forall|t: u64| #[trigger] self.transitions.dom().contains(t) ==> distinct_places(self.transitions[t].outputs@)
    }

    /// Tokens in place `p` (zero for a place the net does not hold).
    pub open spec fn tokens(self, p: u64) -> u32 {
        if self.places.dom().contains(p) {
            self.places[p].tokens
        } else {
            0
        }
    }

    /// Input arcs of transition `t` (none for a transition the net does not hold).
    pub open spec fn inputs(self, t: u64) -> Seq<(PlaceId, ArcKind)> {
        if self.transitions.dom().contains(t) {
            self.transitions[t].inputs@
        } else {
            Seq::empty()
        }
    }

    /// Output arcs of transition `t` (none for a transition the net does not hold).
    pub open spec fn outputs(self, t: u64) -> Seq<(PlaceId, u32)> {
        if self.transitions.dom().contains(t) {
            self.transitions[t].outputs@
        } else {
            Seq::empty()
        }
    }
}

/// An editable net: places and transitions under stable keys that survive the
/// removal of other nodes.
pub struct PetriNet {
    places: PlaceSlots,
    transitions: TransitionSlots,
}

impl View for PetriNet {
    type V = ModelView;

    closed spec fn view(&self) -> ModelView {
        ModelView { places: place_slots(self.places), transitions: transition_slots(self.transitions) }
    }
}

/// Whether `k` has the shape of a slot map key.
fn is_slot_key(k: u64) -> (b: bool)
    ensures
        b == slot_key(k),
{
    let v = k / 0x1_0000_0000;
    v % 2 == 1
}

/// A copy of a list of input arcs.
fn copy_inputs(v: &Vec<(PlaceId, ArcKind)>) -> (r: Vec<(PlaceId, ArcKind)>)
    ensures
        r@ == v@,
{
    let mut r: Vec<(PlaceId, ArcKind)> = Vec::new();
    let mut i: usize = 0;
    while i < v.len()
        invariant
            i <= v@.len(),
            r@ == v@.take(i as int),
        decreases v@.len() - i,
    {
        r.push(v[i]);
        i += 1;
        proof {
            assert(r@ =~= v@.take(i as int));
        }
    }
    proof {
        assert(v@.take(v@.len() as int) =~= v@);
    }
    r
}

/// A copy of a list of output arcs.
fn copy_outputs(v: &Vec<(PlaceId, u32)>) -> (r: Vec<(PlaceId, u32)>)
    ensures
        r@ == v@,
{
    let mut r: Vec<(PlaceId, u32)> = Vec::new();
    let mut i: usize = 0;
    while i < v.len()
        invariant
            i <= v@.len(),
            r@ == v@.take(i as int),
        decreases v@.len() - i,
    {
        r.push(v[i]);
        i += 1;
        proof {
            assert(r@ =~= v@.take(i as int));
        }
    }
    proof {
        assert(v@.take(v@.len() as int) =~= v@);
    }
    r
}

/// Whether some entry of `v` is for place `p`.
fn mentions_place<K: Copy>(v: &Vec<(PlaceId, K)>, p: PlaceId) -> (b: bool)
    ensures
        b == has_place(v@, p),
{
    let mut i: usize = 0;
    while i < v.len()
        invariant
            i <= v@.len(),
            forall|j: int| 0 <= j < i ==> v@[j].0 != p,
        decreases v@.len() - i,
    {
        if v[i].0 == p {
            proof {
                assert(v@[i as int].0 == p);
            }
            return true;
        }
        i += 1;
    }
    false
}

proof fn lemma_without_place_take<K>(s: Seq<(PlaceId, K)>, p: PlaceId, i: int)
    requires
        0 <= i < s.len(),
    ensures
        without_place(s.take(i + 1), p) == if s[i].0 == p {
            without_place(s.take(i), p)
        } else {
            without_place(s.take(i), p).push(s[i])
        },
{
    assert(s.take(i + 1).drop_last() =~= s.take(i));
    assert(s.take(i + 1).last() == s[i]);
}

/// Every entry of `without_place(s, p)` is an entry of `s` not for `p`.
pub(crate) proof fn lemma_without_place_sub<K>(s: Seq<(PlaceId, K)>, p: PlaceId)
    ensures
        forall|j: int| 0 <= j < without_place(s, p).len() ==> s.contains(#[trigger] without_place(s, p)[j])
            && without_place(s, p)[j].0 != p,
        without_place(s, p).len() <= s.len(),
    decreases s.len(),
{
    if s.len() > 0 {
        lemma_without_place_sub(s.drop_last(), p);
        let r = without_place(s.drop_last(), p);
        assert forall|j: int| 0 <= j < without_place(s, p).len() implies s.contains(#[trigger] without_place(s, p)[j])
            && without_place(s, p)[j].0 != p by {
            if j < r.len() {
                assert(without_place(s, p)[j] == r[j]);
                let k = choose|k: int| 0 <= k < s.drop_last().len() && s.drop_last()[k] == r[j];
                assert(s[k] == r[j]);
            } else {
                assert(without_place(s, p)[j] == s.last());
                assert(s[s.len() - 1] == s.last());
            }
        };
    }
}

/// Removing the entries of one place keeps the others distinct.
proof fn lemma_without_place_distinct<K>(s: Seq<(PlaceId, K)>, p: PlaceId)
    requires
        distinct_places(s),
    ensures
        distinct_places(without_place(s, p)),
    decreases s.len(),
{
    if s.len() > 0 {
        let d = s.drop_last();
        assert(distinct_places(d)) by {
            assert forall|i: int, j: int| 0 <= i < j < d.len() implies (#[trigger] d[i]).0 != (#[trigger] d[j]).0 by {
                assert(d[i] == s[i] && d[j] == s[j]);
            };
        };
        lemma_without_place_distinct(d, p);
        lemma_without_place_sub(d, p);
        let r = without_place(d, p);
        if s.last().0 != p {
            let w = r.push(s.last());
            assert forall|i: int, j: int| 0 <= i < j < w.len() implies (#[trigger] w[i]).0 != (#[trigger] w[j]).0 by {
                if j == w.len() - 1 {
                    assert(w[i] == r[i]);
                    assert(d.contains(r[i]));
                    let k = choose|k: int| 0 <= k < d.len() && d[k] == r[i];
                    assert(s[k] == d[k]);
                    assert(s[s.len() - 1] == s.last());
                } else {
                    assert(w[i] == r[i] && w[j] == r[j]);
                }
            };
        }
    }
}

/// `v` without its entries for place `p`.
fn drop_place<K: Copy>(v: &Vec<(PlaceId, K)>, p: PlaceId) -> (r: Vec<(PlaceId, K)>)
    ensures
        r@ == without_place(v@, p),
{
    let mut r: Vec<(PlaceId, K)> = Vec::new();
    let mut i: usize = 0;
    while i < v.len()
        invariant
            i <= v@.len(),
            r@ == without_place(v@.take(i as int), p),
        decreases v@.len() - i,
    {
        proof {
            lemma_without_place_take(v@, p, i as int);
        }
        if v[i].0 != p {
            r.push(v[i]);
        }
        i += 1;
    }
    proof {
        assert(v@.take(v@.len() as int) =~= v@);
    }
    r
}

impl Clone for PetriNet {
    /// The same places and transitions under the same keys.
    fn clone(&self) -> (r: Self)
        ensures
            r@ == self@,
    {
        PetriNet { places: place_slots_clone(&self.places), transitions: transition_slots_clone(&self.transitions) }
    }
}

impl PetriNet {
    pub open spec fn wf(&self) -> bool {
        self@.wf()
    }

    /// A net with no places and no transitions.
    pub fn new() -> (net: Self)
        ensures
            net.wf(),
            net@.places == Map::<u64, PlaceData>::empty(),
            net@.transitions == Map::<u64, TransitionData>::empty(),
    {
        PetriNet { places: place_slots_new(), transitions: transition_slots_new() }
    }

    /// Adds a place labelled `label`, with no tokens, under a fresh key.
    pub fn add_place(&mut self, label: &str) -> (p: PlaceId)
        requires
            old(self).wf(),
            old(self)@.places.dom().len() + 2 < 0x1_0000_0000,
        ensures
            final(self).wf(),
            !old(self)@.places.dom().contains(p.0),
            final(self)@.places.dom() == old(self)@.places.dom().insert(p.0),
            final(self)@.places[p.0].label@ == label@,
            final(self)@.places[p.0].tokens == 0,
            forall|k: u64| k != p.0 ==> #[trigger] final(self)@.places[k] == old(self)@.places[k],
            final(self)@.transitions == old(self)@.transitions,
    {
        let k = place_slots_insert(&mut self.places, PlaceData { label: label.to_owned(), tokens: 0 });
        PlaceId(k)
    }

    /// Adds a transition labelled `label`, with no arcs, under a fresh key.
    pub fn add_transition(&mut self, label: &str) -> (t: TransitionId)
        requires
            old(self).wf(),
            old(self)@.transitions.dom().len() + 2 < 0x1_0000_0000,
        ensures
            final(self).wf(),
            !old(self)@.transitions.dom().contains(t.0),
            final(self)@.transitions.dom() == old(self)@.transitions.dom().insert(t.0),
            final(self)@.transitions[t.0].label@ == label@,
            final(self)@.transitions[t.0].inputs@.len() == 0,
            final(self)@.transitions[t.0].outputs@.len() == 0,
            forall|k: u64| k != t.0 ==> #[trigger] final(self)@.transitions[k] == old(self)@.transitions[k],
            final(self)@.places == old(self)@.places,
    {
        let k = transition_slots_insert(
            &mut self.transitions,
            TransitionData { label: label.to_owned(), inputs: Vec::new(), outputs: Vec::new() },
        );
        TransitionId(k)
    }

    /// Whether the net holds place `p`.
    pub fn contains_place(&self, p: PlaceId) -> (b: bool)
        requires
            self.wf(),
        ensures
            b == self@.places.dom().contains(p.0),
    {
        if !is_slot_key(p.0) {
            return false;
        }
        place_slots_get(&self.places, p.0).is_some()
    }

    /// Whether the net holds transition `t`.
    pub fn contains_transition(&self, t: TransitionId) -> (b: bool)
        requires
            self.wf(),
        ensures
            b == self@.transitions.dom().contains(t.0),
    {
        if !is_slot_key(t.0) {
            return false;
        }
        transition_slots_get(&self.transitions, t.0).is_some()
    }

    /// Tokens in place `p` (zero for a place the net does not hold).
    pub fn tokens(&self, p: PlaceId) -> (n: u32)
        requires
            self.wf(),
        ensures
            n == self@.tokens(p.0),
    {
        if !is_slot_key(p.0) {
            return 0;
        }
        match place_slots_get(&self.places, p.0) {
            Some(d) => d.tokens,
            None => 0,
        }
    }

    /// Sets the tokens of place `p` to `n`; does nothing for a place the net does not hold.
    pub fn set_tokens(&mut self, p: PlaceId, n: u32)
        requires
            old(self).wf(),
        ensures
            final(self).wf(),
            final(self)@.places.dom() == old(self)@.places.dom(),
            forall|k: u64| #[trigger] final(self)@.places.dom().contains(k) ==> final(self)@.places[k].label
                == old(self)@.places[k].label,
            forall|k: u64| #[trigger] final(self)@.places.dom().contains(k) ==> final(self)@.places[k].tokens
                == if k == p.0 { n } else { old(self)@.places[k].tokens },
            final(self)@.transitions == old(self)@.transitions,
    {
        if !is_slot_key(p.0) {
            return;
        }
        let label = match place_slots_get(&self.places, p.0) {
            Some(d) => d.label.clone(),
            None => {
                return;
            },
        };
        place_slots_set(&mut self.places, p.0, PlaceData { label, tokens: n });
    }

    /// Label of place `id`, or `"<removed>"` for a place the net does not hold.
    pub fn place_label(&self, id: PlaceId) -> (s: &str)
        requires
            self.wf(),
        ensures
            self@.places.dom().contains(id.0) ==> s@ == self@.places[id.0].label@,
            !self@.places.dom().contains(id.0) ==> s@ == "<removed>"@,
    {
        if is_slot_key(id.0) {
            if let Some(d) = place_slots_get(&self.places, id.0) {
                return d.label.as_str();
            }
        }
        "<removed>"
    }

    /// The label of place `id`, to edit in place, if the net holds it; what is
    /// written through it becomes the place's label.
    pub fn place_label_mut(&mut self, id: PlaceId) -> (r: Option<&mut String>)
        requires
            old(self).wf(),
        ensures
            final(self).wf(),
            r is Some <==> old(self)@.places.dom().contains(id.0),
            r is None ==> final(self)@ == old(self)@,
            r matches Some(s) ==> *s == old(self)@.places[id.0].label && final(self)@ == (ModelView {
                places: old(self)@.places.insert(id.0, PlaceData { label: *final(s), tokens: old(self)@.places[id.0].tokens }),
                transitions: old(self)@.transitions,
            }),
    {
        if !is_slot_key(id.0) {
            proof {
                assert(!old(self)@.places.dom().contains(id.0));
            }
            return None;
        }
        place_slots_label_mut(&mut self.places, id.0)
    }

    /// The label of transition `id`, to edit in place, if the net holds it;
    /// what is written through it becomes the transition's label.
    pub fn transition_label_mut(&mut self, id: TransitionId) -> (r: Option<&mut String>)
        requires
            old(self).wf(),
        ensures
            final(self).wf(),
            r is Some <==> old(self)@.transitions.dom().contains(id.0),
            r is None ==> final(self)@ == old(self)@,
            r matches Some(s) ==> *s == old(self)@.transitions[id.0].label && final(self)@ == (ModelView {
                places: old(self)@.places,
                transitions: old(self)@.transitions.insert(
                    id.0,
                    TransitionData {
                        label: *final(s),
                        inputs: old(self)@.transitions[id.0].inputs,
                        outputs: old(self)@.transitions[id.0].outputs,
                    },
                ),
            }),
    {
        if !is_slot_key(id.0) {
            proof {
                assert(!old(self)@.transitions.dom().contains(id.0));
            }
            return None;
        }
        transition_slots_label_mut(&mut self.transitions, id.0)
    }

    /// Label of transition `id`, or `"<removed>"` for a transition the net does not hold.
    pub fn transition_label(&self, id: TransitionId) -> (s: &str)
        requires
            self.wf(),
        ensures
            self@.transitions.dom().contains(id.0) ==> s@ == self@.transitions[id.0].label@,
            !self@.transitions.dom().contains(id.0) ==> s@ == "<removed>"@,
    {
        if is_slot_key(id.0) {
            if let Some(d) = transition_slots_get(&self.transitions, id.0) {
                return d.label.as_str();
            }
        }
        "<removed>"
    }

    /// Keys of all places, in slot order.
    pub fn place_ids(&self) -> (ids: Vec<PlaceId>)
        requires
            self.wf(),
        ensures
            forall|i: int, j: int| 0 <= i < j < ids@.len() ==> slot_index(ids@[i].0) < slot_index(ids@[j].0),
            forall|k: u64| #[trigger] self@.places.dom().contains(k) <==> ids@.contains(PlaceId(k)),
    {
        let keys = place_slots_keys(&self.places);
        let mut ids: Vec<PlaceId> = Vec::new();
        let mut i: usize = 0;
        while i < keys.len()
            invariant
                i <= keys@.len(),
                ids@.len() == i,
                forall|j: int| 0 <= j < i ==> ids@[j] == PlaceId(keys@[j]),
            decreases keys@.len() - i,
        {
            ids.push(PlaceId(keys[i]));
            i += 1;
        }
        proof {
            assert forall|k: u64| #[trigger] self@.places.dom().contains(k) <==> ids@.contains(PlaceId(k)) by {
                if keys@.contains(k) {
                    let j = choose|j: int| 0 <= j < keys@.len() && keys@[j] == k;
                    assert(ids@[j] == PlaceId(k));
                }
                if ids@.contains(PlaceId(k)) {
                    let j = choose|j: int| 0 <= j < ids@.len() && ids@[j] == PlaceId(k);
                    assert(keys@[j] == k);
                }
            };
        }
        ids
    }

    /// Keys of all transitions, in slot order.
    pub fn transition_ids(&self) -> (ids: Vec<TransitionId>)
        requires
            self.wf(),
        ensures
            forall|i: int, j: int| 0 <= i < j < ids@.len() ==> slot_index(ids@[i].0) < slot_index(ids@[j].0),
            forall|k: u64| #[trigger] self@.transitions.dom().contains(k) <==> ids@.contains(TransitionId(k)),
    {
        let keys = transition_slots_keys(&self.transitions);
        let mut ids: Vec<TransitionId> = Vec::new();
        let mut i: usize = 0;
        while i < keys.len()
            invariant
                i <= keys@.len(),
                ids@.len() == i,
                forall|j: int| 0 <= j < i ==> ids@[j] == TransitionId(keys@[j]),
            decreases keys@.len() - i,
        {
            ids.push(TransitionId(keys[i]));
            i += 1;
        }
        proof {
            assert forall|k: u64| #[trigger] self@.transitions.dom().contains(k) <==> ids@.contains(TransitionId(k)) by {
                if keys@.contains(k) {
                    let j = choose|j: int| 0 <= j < keys@.len() && keys@[j] == k;
                    assert(ids@[j] == TransitionId(k));
                }
                if ids@.contains(TransitionId(k)) {
                    let j = choose|j: int| 0 <= j < ids@.len() && ids@[j] == TransitionId(k);
                    assert(keys@[j] == k);
                }
            };
        }
        ids
    }

    /// Input arcs `(place, kind)` of transition `t`, in the order they were
    /// added (none for a transition the net does not hold).
    pub fn inputs(&self, t: TransitionId) -> (r: &[(PlaceId, ArcKind)])
        requires
            self.wf(),
        ensures
            r@ == self@.inputs(t.0),
    {
        if is_slot_key(t.0) {
            if let Some(d) = transition_slots_get(&self.transitions, t.0) {
                return d.inputs.as_slice();
            }
        }
        &[]
    }

    /// Output arcs `(place, weight)` of transition `t`, in the order they were
    /// added (none for a transition the net does not hold).
    pub fn outputs(&self, t: TransitionId) -> (r: &[(PlaceId, u32)])
        requires
            self.wf(),
        ensures
            r@ == self@.outputs(t.0),
    {
        if is_slot_key(t.0) {
            if let Some(d) = transition_slots_get(&self.transitions, t.0) {
                return d.outputs.as_slice();
            }
        }
        &[]
    }
}

/// `a` and `b` hold the same keys and agree away from key `k`.
pub open spec fn same_except<V>(a: Map<u64, V>, b: Map<u64, V>, k: u64) -> bool {
    &&& a.dom() == b.dom()
    &&& forall|j: u64| j != k && #[trigger] a.dom().contains(j) ==> a[j] == b[j]
}

/// Without an entry for `p`, removing the entries for `p` changes nothing.
proof fn lemma_without_absent<K>(s: Seq<(PlaceId, K)>, p: PlaceId)
    requires
        !has_place(s, p),
    ensures
        without_place(s, p) == s,
    decreases s.len(),
{
    if s.len() > 0 {
        let d = s.drop_last();
        assert(!has_place(d, p)) by {
            if has_place(d, p) {
                let i = choose|i: int| 0 <= i < d.len() && (#[trigger] d[i]).0 == p;
                assert(s[i] == d[i]);
            }
        };
        lemma_without_absent(d, p);
        assert(s[s.len() - 1] == s.last());
        assert(d.push(s.last()) =~= s);
    }
}

impl PetriNet {
    /// Adds the input arc `p -> t` of kind `kind`. Fails, changing nothing, when
    /// the net does not hold `p`, or else does not hold `t`, or else `t`
    /// already has an input arc from `p`.
    pub fn add_arc_place_to_transition(&mut self, p: PlaceId, t: TransitionId, kind: ArcKind) -> (r: Result<(), ArcError>)
        requires
            old(self).wf(),
        ensures
            final(self).wf(),
            r == if !old(self)@.places.dom().contains(p.0) {
                Err(ArcError::UnknownPlace)
            } else if !old(self)@.transitions.dom().contains(t.0) {
                Err(ArcError::UnknownTransition)
            } else if has_place(old(self)@.transitions[t.0].inputs@, p) {
                Err(ArcError::ArcAlreadyExists)
            } else {
                Ok(())
            },
            r is Err ==> final(self)@.places == old(self)@.places && final(self)@.transitions == old(self)@.transitions,
            final(self)@.places == old(self)@.places,
            same_except(final(self)@.transitions, old(self)@.transitions, t.0),
            r is Ok ==> final(self)@.transitions[t.0].label == old(self)@.transitions[t.0].label
                && final(self)@.transitions[t.0].inputs@ == old(self)@.transitions[t.0].inputs@.push((p, kind))
                && final(self)@.transitions[t.0].outputs@ == old(self)@.transitions[t.0].outputs@,
    {
        if !is_slot_key(p.0) {
            return Err(ArcError::UnknownPlace);
        }
        if place_slots_get(&self.places, p.0).is_none() {
            return Err(ArcError::UnknownPlace);
        }
        if !is_slot_key(t.0) {
            return Err(ArcError::UnknownTransition);
        }
        let (label, mut inputs, outputs) = match transition_slots_get(&self.transitions, t.0) {
            Some(d) => {
                if mentions_place(&d.inputs, p) {
                    return Err(ArcError::ArcAlreadyExists);
                }
                (d.label.clone(), copy_inputs(&d.inputs), copy_outputs(&d.outputs))
            },
            None => {
                return Err(ArcError::UnknownTransition);
            },
        };
        let ghost old_inputs = inputs@;
        inputs.push((p, kind));
        proof {
            let v = self@;
            assert(distinct_places(inputs@)) by {
                assert forall|i: int, j: int| 0 <= i < j < inputs@.len() implies (#[trigger] inputs@[i]).0 != (#[trigger] inputs@[j]).0 by {
                    if j == inputs@.len() - 1 {
                        assert(inputs@[i] == old_inputs[i]);
                        assert(v.transitions[t.0].inputs@[i] == old_inputs[i]);
                    } else {
                        assert(v.transitions[t.0].inputs@[i] == inputs@[i]);
                        assert(v.transitions[t.0].inputs@[j] == inputs@[j]);
                    }
                };
            };
        }
        transition_slots_set(&mut self.transitions, t.0, TransitionData { label, inputs, outputs });
        proof {
            let v = self@;
            assert(v.transitions.dom() =~= old(self)@.transitions.dom());
            assert forall|tt: u64, i: int| v.transitions.dom().contains(tt) && 0 <= i < v.transitions[tt].inputs@.len()
                implies v.places.dom().contains((#[trigger] v.transitions[tt].inputs@[i]).0.0) by {
                if tt == t.0 && i < old_inputs.len() {
                    assert(v.transitions[tt].inputs@[i] == old(self)@.transitions[tt].inputs@[i]);
                }
            };
        }
        Ok(())
    }

    /// Adds the output arc `t -> p` with weight `weight`. Fails, changing
    /// nothing, when the net does not hold `p`, or else does not hold `t`, or
    /// else `t` already has an output arc to `p`.
    pub fn add_arc_transition_to_place(&mut self, t: TransitionId, p: PlaceId, weight: u32) -> (r: Result<(), ArcError>)
        requires
            old(self).wf(),
        ensures
            final(self).wf(),
            r == if !old(self)@.places.dom().contains(p.0) {
                Err(ArcError::UnknownPlace)
            } else if !old(self)@.transitions.dom().contains(t.0) {
                Err(ArcError::UnknownTransition)
            } else if has_place(old(self)@.transitions[t.0].outputs@, p) {
                Err(ArcError::ArcAlreadyExists)
            } else {
                Ok(())
            },
            r is Err ==> final(self)@.places == old(self)@.places && final(self)@.transitions == old(self)@.transitions,
            final(self)@.places == old(self)@.places,
            same_except(final(self)@.transitions, old(self)@.transitions, t.0),
            r is Ok ==> final(self)@.transitions[t.0].label == old(self)@.transitions[t.0].label
                && final(self)@.transitions[t.0].outputs@ == old(self)@.transitions[t.0].outputs@.push((p, weight))
                && final(self)@.transitions[t.0].inputs@ == old(self)@.transitions[t.0].inputs@,
    {
        if !is_slot_key(p.0) {
            return Err(ArcError::UnknownPlace);
        }
        if place_slots_get(&self.places, p.0).is_none() {
            return Err(ArcError::UnknownPlace);
        }
        if !is_slot_key(t.0) {
            return Err(ArcError::UnknownTransition);
        }
        let (label, inputs, mut outputs) = match transition_slots_get(&self.transitions, t.0) {
            Some(d) => {
                if mentions_place(&d.outputs, p) {
                    return Err(ArcError::ArcAlreadyExists);
                }
                (d.label.clone(), copy_inputs(&d.inputs), copy_outputs(&d.outputs))
            },
            None => {
                return Err(ArcError::UnknownTransition);
            },
        };
        let ghost old_outputs = outputs@;
        outputs.push((p, weight));
        proof {
            let v = self@;
            assert(distinct_places(outputs@)) by {
                assert forall|i: int, j: int| 0 <= i < j < outputs@.len() implies (#[trigger] outputs@[i]).0 != (#[trigger] outputs@[j]).0 by {
                    if j == outputs@.len() - 1 {
                        assert(outputs@[i] == old_outputs[i]);
                        assert(v.transitions[t.0].outputs@[i] == old_outputs[i]);
                    } else {
                        assert(v.transitions[t.0].outputs@[i] == outputs@[i]);
                        assert(v.transitions[t.0].outputs@[j] == outputs@[j]);
                    }
                };
            };
        }
        transition_slots_set(&mut self.transitions, t.0, TransitionData { label, inputs, outputs });
        proof {
            let v = self@;
            assert(v.transitions.dom() =~= old(self)@.transitions.dom());
            assert forall|tt: u64, i: int| v.transitions.dom().contains(tt) && 0 <= i < v.transitions[tt].outputs@.len()
                implies v.places.dom().contains((#[trigger] v.transitions[tt].outputs@[i]).0.0) by {
                if tt == t.0 && i < old_outputs.len() {
                    assert(v.transitions[tt].outputs@[i] == old(self)@.transitions[tt].outputs@[i]);
                }
            };
        }
        Ok(())
    }

    /// Replaces the arcs of transition `t` (which the net holds) by its arcs
    /// without those touching place `p`.
    fn drop_arcs_of(&mut self, t: u64, p: PlaceId, inputs_too: bool, outputs_too: bool)
        requires
            old(self).wf(),
            slot_key(t),
            old(self)@.transitions.dom().contains(t),
        ensures
            final(self).wf(),
            final(self)@.places == old(self)@.places,
            same_except(final(self)@.transitions, old(self)@.transitions, t),
            final(self)@.transitions[t].label == old(self)@.transitions[t].label,
            final(self)@.transitions[t].inputs@ == if inputs_too {
                without_place(old(self)@.transitions[t].inputs@, p)
            } else {
                old(self)@.transitions[t].inputs@
            },
            final(self)@.transitions[t].outputs@ == if outputs_too {
                without_place(old(self)@.transitions[t].outputs@, p)
            } else {
                old(self)@.transitions[t].outputs@
            },
    {
        let (label, inputs, outputs) = match transition_slots_get(&self.transitions, t) {
            Some(d) => {
                let inputs = if inputs_too { drop_place(&d.inputs, p) } else { copy_inputs(&d.inputs) };
                let outputs = if outputs_too { drop_place(&d.outputs, p) } else { copy_outputs(&d.outputs) };
                (d.label.clone(), inputs, outputs)
            },
            None => {
                return;
            },
        };
        proof {
            let v = self@;
            lemma_without_place_sub(v.transitions[t].inputs@, p);
            lemma_without_place_sub(v.transitions[t].outputs@, p);
            lemma_without_place_distinct(v.transitions[t].inputs@, p);
            lemma_without_place_distinct(v.transitions[t].outputs@, p);
        }
        let ghost new_inputs = inputs@;
        let ghost new_outputs = outputs@;
        transition_slots_set(&mut self.transitions, t, TransitionData { label, inputs, outputs });
        proof {
            let v = self@;
            let o = old(self)@;
            assert(v.transitions.dom() =~= o.transitions.dom());
            assert forall|tt: u64, i: int| v.transitions.dom().contains(tt) && 0 <= i < v.transitions[tt].inputs@.len()
                implies v.places.dom().contains((#[trigger] v.transitions[tt].inputs@[i]).0.0) by {
                if tt == t {
                    assert(o.transitions[t].inputs@.contains(new_inputs[i]));
                    let k = choose|k: int| 0 <= k < o.transitions[t].inputs@.len() && o.transitions[t].inputs@[k] == new_inputs[i];
                    assert(o.places.dom().contains(o.transitions[t].inputs@[k].0.0));
                }
            };
            assert forall|tt: u64, i: int| v.transitions.dom().contains(tt) && 0 <= i < v.transitions[tt].outputs@.len()
                implies v.places.dom().contains((#[trigger] v.transitions[tt].outputs@[i]).0.0) by {
                if tt == t {
                    assert(o.transitions[t].outputs@.contains(new_outputs[i]));
                    let k = choose|k: int| 0 <= k < o.transitions[t].outputs@.len() && o.transitions[t].outputs@[k] == new_outputs[i];
                    assert(o.places.dom().contains(o.transitions[t].outputs@[k].0.0));
                }
            };
        }
    }

    /// Removes the input arc `p -> t`, if there is one.
    pub fn remove_arc_place_to_transition(&mut self, p: PlaceId, t: TransitionId)
        requires
            old(self).wf(),
        ensures
            final(self).wf(),
            final(self)@.places == old(self)@.places,
            same_except(final(self)@.transitions, old(self)@.transitions, t.0),
            final(self)@.transitions.dom().contains(t.0) ==> final(self)@.transitions[t.0].label
                == old(self)@.transitions[t.0].label
                && final(self)@.transitions[t.0].inputs@ == without_place(old(self)@.transitions[t.0].inputs@, p)
                && final(self)@.transitions[t.0].outputs@ == old(self)@.transitions[t.0].outputs@,
    {
        if is_slot_key(t.0) && transition_slots_get(&self.transitions, t.0).is_some() {
            self.drop_arcs_of(t.0, p, true, false);
        }
    }

    /// Removes the output arc `t -> p`, if there is one.
    pub fn remove_arc_transition_to_place(&mut self, t: TransitionId, p: PlaceId)
        requires
            old(self).wf(),
        ensures
            final(self).wf(),
            final(self)@.places == old(self)@.places,
            same_except(final(self)@.transitions, old(self)@.transitions, t.0),
            final(self)@.transitions.dom().contains(t.0) ==> final(self)@.transitions[t.0].label
                == old(self)@.transitions[t.0].label
                && final(self)@.transitions[t.0].outputs@ == without_place(old(self)@.transitions[t.0].outputs@, p)
                && final(self)@.transitions[t.0].inputs@ == old(self)@.transitions[t.0].inputs@,
    {
        if is_slot_key(t.0) && transition_slots_get(&self.transitions, t.0).is_some() {
            self.drop_arcs_of(t.0, p, false, true);
        }
    }

    /// Removes transition `t`, if the net holds it.
    pub fn remove_transition(&mut self, t: TransitionId)
        requires
            old(self).wf(),
        ensures
            final(self).wf(),
            final(self)@.places == old(self)@.places,
            final(self)@.transitions == old(self)@.transitions.remove(t.0),
    {
        if is_slot_key(t.0) {
            transition_slots_remove(&mut self.transitions, t.0);
        } else {
            proof {
                assert(self@.transitions.remove(t.0) =~= self@.transitions);
            }
        }
    }

    /// Removes place `p`, if the net holds it, together with every arc that touches it.
    pub fn remove_place(&mut self, p: PlaceId)
        requires
            old(self).wf(),
        ensures
            final(self).wf(),
            final(self)@.places == old(self)@.places.remove(p.0),
            final(self)@.transitions.dom() == old(self)@.transitions.dom(),
            forall|t: u64| #[trigger] final(self)@.transitions.dom().contains(t) ==> {
                &&& final(self)@.transitions[t].label == old(self)@.transitions[t].label
                &&& final(self)@.transitions[t].inputs@ == without_place(old(self)@.transitions[t].inputs@, p)
                &&& final(self)@.transitions[t].outputs@ == without_place(old(self)@.transitions[t].outputs@, p)
            },
    {
        if !is_slot_key(p.0) {
            proof {
                let v = self@;
                assert(v.places.remove(p.0) =~= v.places);
                assert forall|t: u64| #[trigger] v.transitions.dom().contains(t) implies
                    without_place(v.transitions[t].inputs@, p) == v.transitions[t].inputs@
                    && without_place(v.transitions[t].outputs@, p) == v.transitions[t].outputs@ by {
                    assert(!has_place(v.transitions[t].inputs@, p)) by {
                        if has_place(v.transitions[t].inputs@, p) {
                            let i = choose|i: int| 0 <= i < v.transitions[t].inputs@.len() && (#[trigger] v.transitions[t].inputs@[i]).0 == p;
                            assert(v.places.dom().contains(v.transitions[t].inputs@[i].0.0));
                        }
                    };
                    assert(!has_place(v.transitions[t].outputs@, p)) by {
                        if has_place(v.transitions[t].outputs@, p) {
                            let i = choose|i: int| 0 <= i < v.transitions[t].outputs@.len() && (#[trigger] v.transitions[t].outputs@[i]).0 == p;
                            assert(v.places.dom().contains(v.transitions[t].outputs@[i].0.0));
                        }
                    };
                    lemma_without_absent(v.transitions[t].inputs@, p);
                    lemma_without_absent(v.transitions[t].outputs@, p);
                };
            }
            return;
        }
        let ghost o = self@;
        let keys = transition_slots_keys(&self.transitions);
        let mut i: usize = 0;
        while i < keys.len()
            invariant
                self.wf(),
                o == old(self)@,
                o.wf(),
                slot_key(p.0),
                keys@.no_duplicates(),
                forall|k: u64| keys@.contains(k) <==> o.transitions.dom().contains(k),
                i <= keys@.len(),
                self@.places == o.places,
                self@.transitions.dom() == o.transitions.dom(),
                forall|t: u64| #[trigger] self@.transitions.dom().contains(t) ==> self@.transitions[t].label == o.transitions[t].label,
                forall|j: int| 0 <= j < i ==> {
                    &&& self@.transitions[#[trigger] keys@[j]].inputs@ == without_place(o.transitions[keys@[j]].inputs@, p)
                    &&& self@.transitions[keys@[j]].outputs@ == without_place(o.transitions[keys@[j]].outputs@, p)
                },
                forall|j: int| i <= j < keys@.len() ==> self@.transitions[#[trigger] keys@[j]] == o.transitions[keys@[j]],
            decreases keys@.len() - i,
        {
            let k = keys[i];
            proof {
                assert(keys@.contains(k));
            }
            let ghost before = self@;
            self.drop_arcs_of(k, p, true, true);
            proof {
                assert forall|j: int| 0 <= j < i + 1 implies {
                    &&& self@.transitions[#[trigger] keys@[j]].inputs@ == without_place(o.transitions[keys@[j]].inputs@, p)
                    &&& self@.transitions[keys@[j]].outputs@ == without_place(o.transitions[keys@[j]].outputs@, p)
                } by {
                    assert(keys@.contains(keys@[j]));
                    if j < i {
                        assert(keys@[j] != k);
                        assert(before.transitions.dom().contains(keys@[j]));
                    }
                };
                assert forall|j: int| i + 1 <= j < keys@.len() implies self@.transitions[#[trigger] keys@[j]] == o.transitions[keys@[j]] by {
                    assert(keys@[j] != k);
                    assert(keys@.contains(keys@[j]));
                    assert(before.transitions.dom().contains(keys@[j]));
                };
            }
            i += 1;
        }
        proof {
            assert forall|t: u64| #[trigger] self@.transitions.dom().contains(t) implies !has_place(self@.transitions[t].inputs@, p)
                && !has_place(self@.transitions[t].outputs@, p) by {
                assert(o.transitions.dom().contains(t));
                assert(keys@.contains(t));
                let j = choose|j: int| 0 <= j < keys@.len() && keys@[j] == t;
                lemma_without_place_sub(o.transitions[t].inputs@, p);
                lemma_without_place_sub(o.transitions[t].outputs@, p);
                assert(self@.transitions[keys@[j]].inputs@ == without_place(o.transitions[keys@[j]].inputs@, p));
            };
        }
        place_slots_remove(&mut self.places, p.0);
        proof {
            let v = self@;
            assert forall|t: u64, i: int| v.transitions.dom().contains(t) && 0 <= i < v.transitions[t].inputs@.len()
                implies v.places.dom().contains((#[trigger] v.transitions[t].inputs@[i]).0.0) by {
                assert(v.transitions[t].inputs@[i].0 != p);
            };
            assert forall|t: u64, i: int| v.transitions.dom().contains(t) && 0 <= i < v.transitions[t].outputs@.len()
                implies v.places.dom().contains((#[trigger] v.transitions[t].outputs@[i]).0.0) by {
                assert(v.transitions[t].outputs@[i].0 != p);
            };
            assert forall|t: u64| #[trigger] v.transitions.dom().contains(t) implies {
                &&& v.transitions[t].inputs@ == without_place(o.transitions[t].inputs@, p)
                &&& v.transitions[t].outputs@ == without_place(o.transitions[t].outputs@, p)
            } by {
                assert(keys@.contains(t));
                let j = choose|j: int| 0 <= j < keys@.len() && keys@[j] == t;
            };
        }
    }

    /// The current marking: the tokens of every place the net holds.
    pub fn marking(&self) -> (m: Marking)
        requires
            self.wf(),
        ensures
            forall|k: u64| #[trigger] lookup(m@, k) == if self@.places.dom().contains(k) {
                Some(self@.places[k].tokens)
            } else {
                None::<u32>
            },
            m@.len() == self@.places.dom().len(),
    {
        let keys = place_slots_keys(&self.places);
        let mut m = Marking::new();
        let mut i: usize = 0;
        proof {
            keys@.unique_seq_to_set();
            assert(keys@.to_set() =~= self@.places.dom());
        }
        while i < keys.len()
            invariant
                self.wf(),
                keys@.no_duplicates(),
                forall|k: u64| keys@.contains(k) <==> self@.places.dom().contains(k),
                keys@.len() == self@.places.dom().len(),
                i <= keys@.len(),
                m@.len() == i,
                forall|k: u64| #[trigger] lookup(m@, k) == if keys@.take(i as int).contains(k) {
                    Some(self@.places[k].tokens)
                } else {
                    None::<u32>
                },
            decreases keys@.len() - i,
        {
            let k = keys[i];
            proof {
                assert(keys@.contains(k));
                assert(slot_key(k));
            }
            let n = match place_slots_get(&self.places, k) {
                Some(d) => d.tokens,
                None => 0,
            };
            let ghost prev = m@;
            let r = m.insert(PlaceId(k), n);
            proof {
                assert(!keys@.take(i as int).contains(k)) by {
                    if keys@.take(i as int).contains(k) {
                        let j = choose|j: int| 0 <= j < i && keys@.take(i as int)[j] == k;
                        assert(keys@[j] == keys@[i as int]);
                    }
                };
                assert(r is None);
                assert forall|kk: u64| #[trigger] lookup(m@, kk) == if keys@.take(i + 1).contains(kk) {
                    Some(self@.places[kk].tokens)
                } else {
                    None::<u32>
                } by {
                    let a = keys@.take(i as int);
                    let b = keys@.take(i + 1);
                    assert(b =~= a.push(k));
                    assert(b[i as int] == k);
                    if kk != k {
                        assert(lookup(m@, kk) == lookup(prev, kk));
                        if a.contains(kk) {
                            let j = choose|j: int| 0 <= j < a.len() && a[j] == kk;
                            assert(b[j] == kk);
                        }
                        if b.contains(kk) {
                            let j = choose|j: int| 0 <= j < b.len() && b[j] == kk;
                            assert(a[j] == kk);
                        }
                    }
                };
            }
            i += 1;
        }
        proof {
            assert(keys@.take(keys@.len() as int) =~= keys@);
        }
        m
    }

    /// Sets every place the net holds to the tokens `m` records for it (zero
    /// where it records none).
    pub fn set_marking(&mut self, m: &Marking)
        requires
            old(self).wf(),
        ensures
            final(self).wf(),
            final(self)@.transitions == old(self)@.transitions,
            final(self)@.places.dom() == old(self)@.places.dom(),
            forall|k: u64| #[trigger] final(self)@.places.dom().contains(k) ==> {
                &&& final(self)@.places[k].label == old(self)@.places[k].label
                &&& final(self)@.places[k].tokens == match lookup(m@, k) {
                    Some(n) => n,
                    None => 0u32,
                }
            },
    {
        let ghost o = self@;
        let keys = place_slots_keys(&self.places);
        let mut i: usize = 0;
        while i < keys.len()
            invariant
                self.wf(),
                o == old(self)@,
                keys@.no_duplicates(),
                forall|k: u64| keys@.contains(k) <==> o.places.dom().contains(k),
                i <= keys@.len(),
                self@.transitions == o.transitions,
                self@.places.dom() == o.places.dom(),
                forall|k: u64| #[trigger] self@.places.dom().contains(k) ==> self@.places[k].label == o.places[k].label,
                forall|j: int| 0 <= j < i ==> self@.places[#[trigger] keys@[j]].tokens == match lookup(m@, keys@[j]) {
                    Some(n) => n,
                    None => 0u32,
                },
                forall|j: int| i <= j < keys@.len() ==> self@.places[#[trigger] keys@[j]] == o.places[keys@[j]],
            decreases keys@.len() - i,
        {
            let k = keys[i];
            proof {
                assert(keys@.contains(k));
            }
            let n = m.tokens_or_zero(PlaceId(k));
            let ghost before = self@;
            self.set_tokens(PlaceId(k), n);
            proof {
                assert forall|j: int| 0 <= j < i + 1 implies self@.places[#[trigger] keys@[j]].tokens == match lookup(m@, keys@[j]) {
                    Some(n) => n,
                    None => 0u32,
                } by {
                    assert(keys@.contains(keys@[j]));
                    if j < i {
                        assert(keys@[j] != k);
                    }
                };
                assert forall|j: int| i + 1 <= j < keys@.len() implies self@.places[#[trigger] keys@[j]] == o.places[keys@[j]] by {
                    assert(keys@[j] != k);
                    assert(keys@.contains(keys@[j]));
                };
            }
            i += 1;
        }
        proof {
            assert forall|k: u64| #[trigger] self@.places.dom().contains(k) implies self@.places[k].tokens == match lookup(m@, k) {
                Some(n) => n,
                None => 0u32,
            } by {
                assert(o.places.dom().contains(k));
                assert(keys@.contains(k));
                let j = choose|j: int| 0 <= j < keys@.len() && keys@[j] == k;
            };
        }
    }
}

impl Default for PetriNet {
    fn default() -> (net: Self)
        ensures
            net.wf(),
            net@.places == Map::<u64, PlaceData>::empty(),
            net@.transitions == Map::<u64, TransitionData>::empty(),
    {
        PetriNet::new()
    }
}

} // verus!
